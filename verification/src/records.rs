//! Edge lists from records of comma-separated text.

use vstd::prelude::*;
use crate::error::CentralityError;
use crate::graph::EdgeList;
use crate::text::Label;

verus! {

#[verifier::external_type_specification]
#[verifier::external_body]
pub struct ExCsvError(csv::Error);

/// The records that the `csv` crate reads from `data` as comma-separated
/// text: the first row is taken as a header and left out, surrounding
/// whitespace is trimmed from every field, and a record may have any
/// number of fields. `None` where the crate fails on a record, as it does
/// on text that is not UTF-8.
pub uninterp spec fn csv_records(data: Seq<u8>) -> Option<Seq<Seq<Seq<char>>>>;

/// Reads all of `data` with a `csv::Reader` built by `csv::ReaderBuilder`
/// with `Trim::All` and `flexible(true)`, through `Reader::records`, and
/// stops at the first record that the reader fails on. What comes back is
/// what `csv_records` names for these bytes.
#[verifier::external_body]
fn read_records(data: &[u8]) -> (result: Result<Vec<Vec<String>>, csv::Error>)
    ensures
        match result {
            Ok(records) => csv_records(data@) == Some(records.deep_view()),
            Err(_) => csv_records(data@) is None,
        },
{
    let mut reader =
        csv::ReaderBuilder::new().trim(csv::Trim::All).flexible(true).from_reader(data);
    let owned = |fields: csv::StringRecord| fields.iter().map(|f| f.to_owned()).collect();
    reader.records().map(|record| record.map(owned)).collect()
}

/// The edges that `records` hold: each record of exactly two fields is an
/// edge from its first field to its second, in the order of the records;
/// every other record is left out.
pub open spec fn edges_of(records: Seq<Seq<Label>>) -> Seq<(Label, Label)>
    decreases records.len(),
{
    if records.len() == 0 {
        Seq::empty()
    } else {
        let earlier = edges_of(records.drop_last());
        let record = records.last();
        if record.len() == 2 {
            earlier.push((record[0], record[1]))
        } else {
            earlier
        }
    }
}

/// Turns records into edges, dropping every record that does not have
/// exactly two fields.
pub fn edges_from_records(records: &Vec<Vec<String>>) -> (edges: EdgeList)
    ensures
        edges.deep_view() == edges_of(records.deep_view()),
{
    let ghost all = records.deep_view();
    let mut edges: EdgeList = Vec::new();
    let mut i: usize = 0;
    while i < records.len()
        invariant
            0 <= i <= records@.len(),
            all == records.deep_view(),
            edges.deep_view() == edges_of(all.take(i as int)),
        decreases records@.len() - i,
    {
        let ghost before = edges.deep_view();
        proof {
            assert(all.take(i + 1).drop_last() =~= all.take(i as int));
            assert(all.take(i + 1).last() == all[i as int]);
            assert(all[i as int] == records@[i as int].deep_view());
        }
        if records[i].len() == 2 {
            let name1 = records[i][0].clone();
            let name2 = records[i][1].clone();
            edges.push((name1, name2));
            proof {
                assert(edges.deep_view() =~= before.push((all[i as int][0], all[i as int][1])));
            }
        }
        i += 1;
    }
    proof {
        assert(all.take(i as int) =~= all);
    }
    edges
}

/// Reads comma-separated text into a list of edges: the records that the
/// `csv` crate finds in `data`, each of exactly two fields an edge.
///
/// Fails when, and only when, the `csv` crate fails on one of the
/// records.
pub fn edges_from_csv(data: &[u8]) -> (result: Result<EdgeList, CentralityError>)
    ensures
        match result {
            Ok(edges) => csv_records(data@) is Some && edges.deep_view() == edges_of(
                csv_records(data@)->0,
            ),
            Err(e) => e == CentralityError::InputUnavailable && csv_records(data@) is None,
        },
{
    match read_records(data) {
        Ok(records) => Ok(edges_from_records(&records)),
        Err(_) => Err(CentralityError::InputUnavailable),
    }
}

} // verus!
