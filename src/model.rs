use vstd::prelude::*;

verus! {

/// The score of one match: what the first-listed side scored, then what the
/// second-listed side scored.
#[derive(Clone, Copy, Debug, PartialEq, Eq, Structural)]
pub struct MatchResult(pub i32, pub i32);

/// One directed record of the results table: `first` met `second`, with
/// `result` giving the scores in that order.
#[derive(Debug)]
pub struct MatchEntry {
    pub first: String,
    pub second: String,
    pub result: MatchResult,
}

/// A match entry as the contracts see it.
pub type EntryView = (Seq<char>, Seq<char>, MatchResult);

impl View for MatchEntry {
    type V = EntryView;

    open spec fn view(&self) -> EntryView {
        (self.first@, self.second@, self.result)
    }
}

/// The largest number of entries whose points are sure to fit in an `i64`:
/// no participant gains more than three points from one entry.
pub const MAX_ENTRIES: u64 = 3074457345618258602;

pub open spec fn entries_view(es: Seq<MatchEntry>) -> Seq<EntryView> {
    es.map_values(|e: MatchEntry| e@)
}

/// A standings list as the contracts see it: names and point totals.
pub open spec fn standings_view(t: Seq<(String, i64)>) -> Seq<(Seq<char>, int)> {
    t.map_values(|p: (String, i64)| (p.0@, p.1 as int))
}

/// Points that one entry awards to `id`: three to the side with the higher
/// score, one to each side on a draw.
pub open spec fn entry_points(e: EntryView, id: Seq<char>) -> int {
    let (a, b, r) = e;
    if r.0 > r.1 {
        if a == id { 3 } else { 0 }
    } else if r.0 == r.1 {
        (if a == id { 1int } else { 0int }) + (if b == id { 1int } else { 0int })
    } else {
        if b == id { 3 } else { 0 }
    }
}

/// Total points of `id` over all entries.
pub open spec fn points_of(es: Seq<EntryView>, id: Seq<char>) -> int
    decreases es.len(),
{
    if es.len() == 0 {
        0
    } else {
        points_of(es.drop_last(), id) + entry_points(es.last(), id)
    }
}

/// The participants that one entry awards points to, first side first.
pub open spec fn entry_awards(e: EntryView) -> Seq<Seq<char>> {
    let (a, b, r) = e;
    if r.0 > r.1 {
        seq![a]
    } else if r.0 == r.1 {
        seq![a, b]
    } else {
        seq![b]
    }
}

/// Every award made by the entries, in entry order.
pub open spec fn awards(es: Seq<EntryView>) -> Seq<Seq<char>>
    decreases es.len(),
{
    if es.len() == 0 {
        Seq::empty()
    } else {
        awards(es.drop_last()) + entry_awards(es.last())
    }
}

/// `s` with its first occurrence of `x` kept and later ones dropped.
pub open spec fn add_name(s: Seq<Seq<char>>, x: Seq<char>) -> Seq<Seq<char>> {
    if s.contains(x) { s } else { s.push(x) }
}

/// The distinct names of `s`, in order of first occurrence.
pub open spec fn first_seen(s: Seq<Seq<char>>) -> Seq<Seq<char>>
    decreases s.len(),
{
    if s.len() == 0 {
        Seq::empty()
    } else {
        add_name(first_seen(s.drop_last()), s.last())
    }
}

/// Where a participant first received points, counted over all awards.
pub open spec fn arrival(es: Seq<EntryView>, id: Seq<char>) -> int {
    first_seen(awards(es)).index_of(id)
}

/// `x` stands above `y`: more points, or as many and points received earlier.
pub open spec fn ranks_above(es: Seq<EntryView>, x: (Seq<char>, int), y: (Seq<char>, int)) -> bool {
    x.1 > y.1 || (x.1 == y.1 && arrival(es, x.0) < arrival(es, y.0))
}

/// `r` is the standings of `es`: each listed participant with its total, which
/// is positive; every participant with a positive total listed; and each
/// participant ranked above all that follow it.
pub open spec fn is_standings(es: Seq<EntryView>, r: Seq<(Seq<char>, int)>) -> bool {
    &&& forall|i: int| 0 <= i < r.len() ==> r[i].1 == #[trigger] points_of(es, r[i].0) && r[i].1 > 0
    &&& forall|id: Seq<char>| #[trigger] points_of(es, id) > 0 ==> exists|i: int|
        0 <= i < r.len() && r[i].0 == id
    &&& forall|i: int, j: int| 0 <= i < j < r.len() ==> #[trigger] ranks_above(es, r[i], r[j])
}

} // verus!
