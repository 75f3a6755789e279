//! Node labels as sequences of characters, and their order.

use vstd::prelude::*;

verus! {

/// A label as contracts see it: the sequence of its characters.
pub type Label = Seq<char>;

/// Strict lexicographic order on labels, character by character and by
/// Unicode scalar value; a proper prefix comes before its extensions.
pub open spec fn label_lt(a: Label, b: Label) -> bool
    decreases a.len(),
{
    if b.len() == 0 {
        false
    } else if a.len() == 0 {
        true
    } else if a[0] != b[0] {
        (a[0] as int) < (b[0] as int)
    } else {
        label_lt(a.drop_first(), b.drop_first())
    }
}

/// `a` comes before `b` or equals it.
pub open spec fn label_le(a: Label, b: Label) -> bool {
    a == b || label_lt(a, b)
}

/// No label comes before itself.
pub proof fn lemma_label_lt_irreflexive(a: Label)
    ensures
        !label_lt(a, a),
    decreases a.len(),
{
    if a.len() > 0 {
        lemma_label_lt_irreflexive(a.drop_first());
    }
}

/// The order is transitive.
pub proof fn lemma_label_lt_transitive(a: Label, b: Label, c: Label)
    requires
        label_lt(a, b),
        label_lt(b, c),
    ensures
        label_lt(a, c),
    decreases a.len(),
{
    if a.len() > 0 && a[0] == b[0] && b[0] == c[0] {
        lemma_label_lt_transitive(a.drop_first(), b.drop_first(), c.drop_first());
    }
}

/// Of two different labels one comes before the other.
pub proof fn lemma_label_lt_total(a: Label, b: Label)
    ensures
        a == b || label_lt(a, b) || label_lt(b, a),
    decreases a.len(),
{
    if a.len() > 0 && b.len() > 0 {
        if a[0] == b[0] {
            lemma_label_lt_total(a.drop_first(), b.drop_first());
            if a.drop_first() == b.drop_first() {
                assert(a =~= seq![a[0]] + a.drop_first());
                assert(b =~= seq![b[0]] + b.drop_first());
            }
        } else {
            assert((a[0] as int) != (b[0] as int));
        }
    } else if a.len() == 0 && b.len() == 0 {
        assert(a =~= b);
    }
}

/// Whether each label comes before all later ones.
pub open spec fn strictly_ascending(labels: Seq<Label>) -> bool {
    forall|i: int, j: int|
        0 <= i < j < labels.len() ==> label_lt(#[trigger] labels[i], #[trigger] labels[j])
}

/// Labels in strictly ascending order are all different.
pub proof fn lemma_strictly_ascending_distinct(labels: Seq<Label>)
    requires
        strictly_ascending(labels),
    ensures
        labels.no_duplicates(),
{
    assert forall|i: int, j: int|
        0 <= i < labels.len() && 0 <= j < labels.len() && i != j implies labels[i]
        != labels[j] by {
        lemma_label_lt_irreflexive(labels[i]);
        if i < j {
            assert(label_lt(labels[i], labels[j]));
        } else {
            assert(label_lt(labels[j], labels[i]));
        }
    }
}

/// Two lists of the same labels, both in strictly ascending order, are the
/// same list.
pub proof fn lemma_strictly_ascending_unique(a: Seq<Label>, b: Seq<Label>)
    requires
        strictly_ascending(a),
        strictly_ascending(b),
        forall|l: Label| a.contains(l) <==> b.contains(l),
    ensures
        a == b,
{
    broadcast use vstd::seq_lib::group_to_multiset_ensures;

    let leq = |x: Label, y: Label| label_le(x, y);
    assert(vstd::relations::total_ordering(leq)) by {
        assert forall|x: Label, y: Label| #[trigger] leq(x, y) && #[trigger] leq(y, x) implies x
            == y by {
            if x != y {
                lemma_label_lt_transitive(x, y, x);
                lemma_label_lt_irreflexive(x);
            }
        }
        assert forall|x: Label, y: Label, z: Label| #[trigger] leq(x, y) && #[trigger] leq(
            y,
            z,
        ) implies leq(x, z) by {
            if x != y && y != z {
                lemma_label_lt_transitive(x, y, z);
            }
        }
        assert forall|x: Label, y: Label| #[trigger] leq(x, y) || #[trigger] leq(y, x) by {
            lemma_label_lt_total(x, y);
        }
    }
    assert(vstd::relations::sorted_by(a, leq));
    assert(vstd::relations::sorted_by(b, leq));
    lemma_strictly_ascending_distinct(a);
    lemma_strictly_ascending_distinct(b);
    a.lemma_multiset_has_no_duplicates();
    b.lemma_multiset_has_no_duplicates();
    assert forall|l: Label| a.to_multiset().count(l) == b.to_multiset().count(l) by {
        assert(a.contains(l) <==> b.contains(l));
        assert(a.to_multiset().contains(l) <==> a.to_multiset().count(l) > 0);
        assert(b.to_multiset().contains(l) <==> b.to_multiset().count(l) > 0);
    }
    assert(a.to_multiset() =~= b.to_multiset());
    vstd::seq_lib::lemma_sorted_unique(a, b, leq);
}

} // verus!
