use crate::model::{
    entries_view, is_standings, standings_view, EntryView, MatchEntry, MatchResult, MAX_ENTRIES,
};
use crate::tally::compute_standings;
use std::collections::BTreeMap;
use vstd::prelude::*;

verus! {

#[verifier::external_type_specification]
#[verifier::external_body]
pub struct ExJsonError(serde_json::Error);

/// A decoded results table as the contracts see it: for each participant, its
/// opponents with the two scores.
pub type TableView = Seq<(Seq<char>, Seq<(Seq<char>, (i32, i32))>)>;

/// What JSON text decodes to as a results table, if it is one.
pub uninterp spec fn json_results(text: Seq<char>) -> Option<TableView>;

/// The JSON text of a standings list.
pub uninterp spec fn json_standings(s: Seq<(Seq<char>, int)>) -> Seq<char>;

pub open spec fn rows_view(rows: Seq<(String, Vec<(String, (i32, i32))>)>) -> TableView {
    rows.map_values(
        |row: (String, Vec<(String, (i32, i32))>)|
            (row.0@, row.1@.map_values(|c: (String, (i32, i32))| (c.0@, c.1))),
    )
}

/// The match entries recorded under one participant.
pub open spec fn row_entries(row: (Seq<char>, Seq<(Seq<char>, (i32, i32))>)) -> Seq<EntryView> {
    row.1.map_values(|c: (Seq<char>, (i32, i32))| (row.0, c.0, MatchResult(c.1.0, c.1.1)))
}

/// All match entries of a table, row by row.
pub open spec fn table_entries(rows: TableView) -> Seq<EntryView>
    decreases rows.len(),
{
    if rows.len() == 0 {
        Seq::empty()
    } else {
        table_entries(rows.drop_last()) + row_entries(rows.last())
    }
}

/// Relies on serde_json::from_str to read the text as a JSON object whose
/// values are JSON objects of two-integer arrays, collected into ordered maps
/// and handed on as rows; what comes back depends on the text alone.
#[verifier::external_body]
fn parse_results(text: &str) -> (r: Result<Vec<(String, Vec<(String, (i32, i32))>)>, serde_json::Error>)
    ensures
        match r {
            Ok(rows) => json_results(text@) == Some(rows_view(rows@)),
            Err(_) => json_results(text@) is None,
        },
{
    serde_json::from_str::<BTreeMap<String, BTreeMap<String, (i32, i32)>>>(text).map(
        |m| m.into_iter().map(|(k, v)| (k, v.into_iter().collect())).collect(),
    )
}

/// Relies on serde_json::to_string to write the standings as a JSON array of
/// `[name, points]` arrays; the text depends on the standings alone. It fails
/// only where a `Serialize` impl fails or a map has keys that are not strings,
/// and neither can happen for strings, integers, tuples and vectors written
/// into a byte vector.
#[verifier::external_body]
fn write_standings(s: &Vec<(String, i64)>) -> (r: Result<String, serde_json::Error>)
    ensures
        r is Ok,
        r->Ok_0@ == json_standings(standings_view(s@)),
{
    serde_json::to_string(s)
}

/// Why a payload could not be read as a results table.
#[derive(Debug)]
pub enum DecodeError {
    Malformed(serde_json::Error),
}

/// Reads a JSON results table into its match entries, row by row.
pub fn decode_results(text: &str) -> (r: Result<Vec<MatchEntry>, DecodeError>)
    ensures
        match json_results(text@) {
            Some(rows) => r is Ok && entries_view(r->Ok_0@) == table_entries(rows),
            None => r is Err,
        },
{
    match parse_results(text) {
        Err(e) => Err(DecodeError::Malformed(e)),
        Ok(rows) => {
            let ghost tv = rows_view(rows@);
            let mut out: Vec<MatchEntry> = Vec::new();
            let mut i: usize = 0;
            proof {
                assert(tv.subrange(0, 0) =~= Seq::<(Seq<char>, Seq<(Seq<char>, (i32, i32))>)>::empty());
                assert(entries_view(out@) =~= Seq::<EntryView>::empty());
            }
            while i < rows.len()
                invariant
                    i <= rows.len(),
                    tv == rows_view(rows@),
                    entries_view(out@) == table_entries(tv.subrange(0, i as int)),
                decreases rows.len() - i,
            {
                let row = &rows[i];
                let ghost before = entries_view(out@);
                let ghost rv = tv[i as int];
                let mut j: usize = 0;
                proof {
                    assert(row_entries(rv).subrange(0, 0) =~= Seq::<EntryView>::empty());
                    assert(before + row_entries(rv).subrange(0, 0) =~= before);
                }
                while j < row.1.len()
                    invariant
                        j <= row.1.len(),
                        row == rows@[i as int],
                        rv == tv[i as int],
                        tv == rows_view(rows@),
                        i < rows.len(),
                        entries_view(out@) == before + row_entries(rv).subrange(0, j as int),
                    decreases row.1.len() - j,
                {
                    let (second, scores) = &row.1[j];
                    let entry = MatchEntry {
                        first: row.0.clone(),
                        second: second.clone(),
                        result: MatchResult(scores.0, scores.1),
                    };
                    let ghost ev = entry@;
                    let ghost prev = out@;
                    out.push(entry);
                    proof {
                        assert(row_entries(rv).subrange(0, j + 1) =~= row_entries(rv).subrange(
                            0,
                            j as int,
                        ).push(row_entries(rv)[j as int]));
                        assert(entries_view(out@) =~= entries_view(prev).push(ev));
                        assert(ev == row_entries(rv)[j as int]);
                    }
                    j += 1;
                }
                proof {
                    let p2 = tv.subrange(0, i + 1);
                    assert(p2.drop_last() =~= tv.subrange(0, i as int));
                    assert(row_entries(rv).subrange(0, j as int) =~= row_entries(rv));
                }
                i += 1;
            }
            proof {
                assert(tv.subrange(0, i as int) =~= tv);
            }
            Ok(out)
        },
    }
}

/// The payload that stands for no standings: an empty JSON array.
pub open spec fn empty_list() -> Seq<char> {
    seq!['[', ']']
}

/// `text` reports the standings of `es`: their JSON text, or the empty list
/// where the entries are too many to total.
pub open spec fn reports(es: Seq<EntryView>, text: Seq<char>) -> bool {
    if es.len() > MAX_ENTRIES {
        text == empty_list()
    } else {
        exists|s: Seq<(Seq<char>, int)>| is_standings(es, s) && text == json_standings(s)
    }
}

fn empty_payload() -> (r: String)
    ensures
        r@ == empty_list(),
{
    proof {
        reveal_strlit("[]");
    }
    "[]".to_owned()
}

/// The standings of the entries as JSON text.
pub fn standings_text(entries: &Vec<MatchEntry>) -> (r: String)
    ensures
        reports(entries_view(entries@), r@),
{
    if entries.len() as u64 > MAX_ENTRIES {
        return empty_payload();
    }
    let standings = compute_standings(entries);
    write_standings(&standings).unwrap()
}

/// The standings of a JSON results table as JSON text; a payload that is not
/// such a table gives the empty list.
pub fn calculate_rankings(results_json: &str) -> (r: String)
    ensures
        match json_results(results_json@) {
            Some(rows) => reports(table_entries(rows), r@),
            None => r@ == empty_list(),
        },
{
    match decode_results(results_json) {
        Ok(entries) => standings_text(&entries),
        Err(_) => empty_payload(),
    }
}

} // verus!
