use crate::codec::{json_standings, reports};
use crate::model::{entry_points, is_standings, points_of, ranks_above, EntryView, MAX_ENTRIES};
use crate::tally::lemma_points_awarded;
use vstd::prelude::*;

verus! {

/// Number of entries that have a winner.
pub open spec fn decisive_count(es: Seq<EntryView>) -> int
    decreases es.len(),
{
    if es.len() == 0 {
        0
    } else {
        decisive_count(es.drop_last()) + if es.last().2.0 != es.last().2.1 { 1int } else { 0int }
    }
}

/// Number of entries that are draws.
pub open spec fn draw_count(es: Seq<EntryView>) -> int
    decreases es.len(),
{
    if es.len() == 0 {
        0
    } else {
        draw_count(es.drop_last()) + if es.last().2.0 == es.last().2.1 { 1int } else { 0int }
    }
}

/// Sum of the totals in a standings list.
pub open spec fn total_points(r: Seq<(Seq<char>, int)>) -> int
    decreases r.len(),
{
    if r.len() == 0 {
        0
    } else {
        total_points(r.drop_last()) + r.last().1
    }
}

/// Sum over the names of `r` of their points in `es`.
pub open spec fn points_over(es: Seq<EntryView>, r: Seq<(Seq<char>, int)>) -> int
    decreases r.len(),
{
    if r.len() == 0 {
        0
    } else {
        points_over(es, r.drop_last()) + points_of(es, r.last().0)
    }
}

/// Sum over the names of `r` of what one entry awards them.
pub open spec fn entry_over(e: EntryView, r: Seq<(Seq<char>, int)>) -> int
    decreases r.len(),
{
    if r.len() == 0 {
        0
    } else {
        entry_over(e, r.drop_last()) + entry_points(e, r.last().0)
    }
}

/// How often `a` is a name of `r`.
pub open spec fn name_count(r: Seq<(Seq<char>, int)>, a: Seq<char>) -> int
    decreases r.len(),
{
    if r.len() == 0 {
        0
    } else {
        name_count(r.drop_last(), a) + if r.last().0 == a { 1int } else { 0int }
    }
}

/// `r` names `a`.
pub open spec fn lists(r: Seq<(Seq<char>, int)>, a: Seq<char>) -> bool {
    exists|i: int| 0 <= i < r.len() && r[i].0 == a
}

/// No name occurs twice in `r`.
pub open spec fn distinct_names(r: Seq<(Seq<char>, int)>) -> bool {
    forall|i: int, j: int| 0 <= i < j < r.len() ==> r[i].0 != r[j].0
}

/// Each listed participant stands above all that follow it.
pub open spec fn strictly_ranked(es: Seq<EntryView>, r: Seq<(Seq<char>, int)>) -> bool {
    forall|i: int, j: int| 0 <= i < j < r.len() ==> #[trigger] ranks_above(es, r[i], r[j])
}

/// Every participant appears at most once in the standings, only with at least
/// one point, and one with no points does not appear.
pub proof fn lemma_listed_once(es: Seq<EntryView>, r: Seq<(Seq<char>, int)>)
    requires
        is_standings(es, r),
    ensures
        distinct_names(r),
        forall|i: int| 0 <= i < r.len() ==> r[i].1 >= 1,
        forall|id: Seq<char>| points_of(es, id) == 0 ==> !lists(r, id),
{
    assert forall|i: int, j: int| 0 <= i < j < r.len() implies r[i].0 != r[j].0 by {
        assert(ranks_above(es, r[i], r[j]));
        assert(r[i].1 == points_of(es, r[i].0));
        assert(r[j].1 == points_of(es, r[j].0));
    }
    assert forall|i: int| 0 <= i < r.len() implies r[i].1 >= 1 by {
        assert(r[i].1 == points_of(es, r[i].0));
    }
    assert forall|id: Seq<char>| points_of(es, id) == 0 implies !lists(r, id) by {
        if lists(r, id) {
            let i = choose|i: int| 0 <= i < r.len() && r[i].0 == id;
            assert(r[i].1 == points_of(es, r[i].0));
        }
    }
}

/// Along the standings the totals never increase.
pub proof fn lemma_sorted_by_points(es: Seq<EntryView>, r: Seq<(Seq<char>, int)>)
    requires
        is_standings(es, r),
    ensures
        forall|i: int| 0 <= i < r.len() - 1 ==> r[i].1 >= #[trigger] r[i + 1].1,
{
    assert forall|i: int| 0 <= i < r.len() - 1 implies r[i].1 >= #[trigger] r[i + 1].1 by {
        assert(ranks_above(es, r[i], r[i + 1]));
    }
}

/// An empty table has empty standings.
pub proof fn lemma_empty_table(r: Seq<(Seq<char>, int)>)
    requires
        is_standings(Seq::empty(), r),
    ensures
        r.len() == 0,
{
    if r.len() > 0 {
        assert(r[0].1 == points_of(Seq::empty(), r[0].0));
    }
}

proof fn lemma_same_rows_equal(es: Seq<EntryView>, r1: Seq<(Seq<char>, int)>, r2: Seq<(Seq<char>, int)>)
    requires
        strictly_ranked(es, r1),
        strictly_ranked(es, r2),
        forall|i: int| 0 <= i < r1.len() ==> r2.contains(#[trigger] r1[i]),
        forall|i: int| 0 <= i < r2.len() ==> r1.contains(#[trigger] r2[i]),
    ensures
        r1 == r2,
    decreases r1.len(),
{
    if r1.len() == 0 {
        if r2.len() > 0 {
            assert(r1.contains(r2[0]));
        }
        assert(r1 =~= r2);
    } else {
        if r2.len() == 0 {
            assert(r2.contains(r1[0]));
        }
        assert(r2.contains(r1[0]));
        let j = choose|j: int| 0 <= j < r2.len() && r2[j] == r1[0];
        assert(r1.contains(r2[0]));
        let k = choose|k: int| 0 <= k < r1.len() && r1[k] == r2[0];
        if j > 0 {
            assert(ranks_above(es, r2[0], r2[j]));
            if k > 0 {
                assert(ranks_above(es, r1[0], r1[k]));
            }
        }
        assert(r1[0] == r2[0]);
        let t1 = r1.drop_first();
        let t2 = r2.drop_first();
        assert forall|i: int, j: int| 0 <= i < j < t1.len() implies #[trigger] ranks_above(es, t1[i], t1[j]) by {
            assert(ranks_above(es, r1[i + 1], r1[j + 1]));
        }
        assert forall|i: int, j: int| 0 <= i < j < t2.len() implies #[trigger] ranks_above(es, t2[i], t2[j]) by {
            assert(ranks_above(es, r2[i + 1], r2[j + 1]));
        }
        assert forall|i: int| 0 <= i < t1.len() implies t2.contains(#[trigger] t1[i]) by {
            assert(r2.contains(r1[i + 1]));
            let m = choose|m: int| 0 <= m < r2.len() && r2[m] == r1[i + 1];
            assert(ranks_above(es, r1[0], r1[i + 1]));
            assert(m != 0);
            assert(t2[m - 1] == t1[i]);
        }
        assert forall|i: int| 0 <= i < t2.len() implies t1.contains(#[trigger] t2[i]) by {
            assert(r1.contains(r2[i + 1]));
            let m = choose|m: int| 0 <= m < r1.len() && r1[m] == r2[i + 1];
            assert(ranks_above(es, r2[0], r2[i + 1]));
            assert(m != 0);
            assert(t1[m - 1] == t2[i]);
        }
        lemma_same_rows_equal(es, t1, t2);
        assert(r1 =~= seq![r1[0]] + t1);
        assert(r2 =~= seq![r2[0]] + t2);
    }
}

/// The standings of a table are unique: two lists that both meet the
/// description hold the same entries in the same order.
pub proof fn lemma_standings_unique(es: Seq<EntryView>, r1: Seq<(Seq<char>, int)>, r2: Seq<(Seq<char>, int)>)
    requires
        is_standings(es, r1),
        is_standings(es, r2),
    ensures
        r1 == r2,
{
    assert forall|i: int| 0 <= i < r1.len() implies r2.contains(#[trigger] r1[i]) by {
        assert(r1[i].1 == points_of(es, r1[i].0));
        let j = choose|j: int| 0 <= j < r2.len() && r2[j].0 == r1[i].0;
        assert(r2[j].1 == points_of(es, r2[j].0));
        assert(r2[j] == r1[i]);
    }
    assert forall|i: int| 0 <= i < r2.len() implies r1.contains(#[trigger] r2[i]) by {
        assert(r2[i].1 == points_of(es, r2[i].0));
        let j = choose|j: int| 0 <= j < r1.len() && r1[j].0 == r2[i].0;
        assert(r1[j].1 == points_of(es, r1[j].0));
        assert(r1[j] == r2[i]);
    }
    lemma_same_rows_equal(es, r1, r2);
}

proof fn lemma_total_is_points(es: Seq<EntryView>, r: Seq<(Seq<char>, int)>)
    requires
        forall|i: int| 0 <= i < r.len() ==> r[i].1 == #[trigger] points_of(es, r[i].0),
    ensures
        total_points(r) == points_over(es, r),
    decreases r.len(),
{
    if r.len() > 0 {
        let p = r.drop_last();
        assert forall|i: int| 0 <= i < p.len() implies p[i].1 == #[trigger] points_of(es, p[i].0) by {
            assert(p[i] == r[i]);
        }
        lemma_total_is_points(es, p);
        assert(r.last().1 == points_of(es, r[r.len() - 1].0));
    }
}

proof fn lemma_points_over_split(es: Seq<EntryView>, r: Seq<(Seq<char>, int)>)
    requires
        es.len() > 0,
    ensures
        points_over(es, r) == points_over(es.drop_last(), r) + entry_over(es.last(), r),
    decreases r.len(),
{
    if r.len() > 0 {
        lemma_points_over_split(es, r.drop_last());
    }
}

proof fn lemma_entry_over_counts(e: EntryView, r: Seq<(Seq<char>, int)>)
    ensures
        entry_over(e, r) == if e.2.0 > e.2.1 {
            3 * name_count(r, e.0)
        } else if e.2.0 == e.2.1 {
            name_count(r, e.0) + name_count(r, e.1)
        } else {
            3 * name_count(r, e.1)
        },
    decreases r.len(),
{
    if r.len() > 0 {
        lemma_entry_over_counts(e, r.drop_last());
    }
}

proof fn lemma_name_count_distinct(r: Seq<(Seq<char>, int)>, a: Seq<char>)
    requires
        distinct_names(r),
    ensures
        name_count(r, a) == if lists(r, a) { 1int } else { 0int },
    decreases r.len(),
{
    if r.len() > 0 {
        let p = r.drop_last();
        assert forall|i: int, j: int| 0 <= i < j < p.len() implies p[i].0 != p[j].0 by {
            assert(r[i].0 != r[j].0);
        }
        lemma_name_count_distinct(p, a);
        if lists(p, a) {
            let i = choose|i: int| 0 <= i < p.len() && p[i].0 == a;
            assert(r[i].0 == a);
            assert(r[i].0 != r[r.len() - 1].0);
        }
        if lists(r, a) && r.last().0 != a {
            let i = choose|i: int| 0 <= i < r.len() && r[i].0 == a;
            assert(p[i].0 == a);
        }
        if r.last().0 == a {
            assert(r[r.len() - 1].0 == a);
        }
    }
}

proof fn lemma_points_over_none(es: Seq<EntryView>, r: Seq<(Seq<char>, int)>)
    requires
        es.len() == 0,
    ensures
        points_over(es, r) == 0,
    decreases r.len(),
{
    if r.len() > 0 {
        lemma_points_over_none(es, r.drop_last());
    }
}

proof fn lemma_points_over_all(es: Seq<EntryView>, r: Seq<(Seq<char>, int)>)
    requires
        distinct_names(r),
        forall|id: Seq<char>| #[trigger] points_of(es, id) > 0 ==> lists(r, id),
    ensures
        points_over(es, r) == 3 * decisive_count(es) + 2 * draw_count(es),
    decreases es.len(),
{
    if es.len() > 0 {
        let p = es.drop_last();
        let e = es.last();
        assert forall|id: Seq<char>| #[trigger] points_of(p, id) > 0 implies lists(r, id) by {
            lemma_points_awarded(es, id);
            lemma_points_awarded(p, id);
            assert(points_of(es, id) > 0);
        }
        lemma_points_over_all(p, r);
        lemma_points_over_split(es, r);
        lemma_entry_over_counts(e, r);
        lemma_points_awarded(p, e.0);
        lemma_points_awarded(p, e.1);
        lemma_name_count_distinct(r, e.0);
        lemma_name_count_distinct(r, e.1);
        if e.2.0 > e.2.1 {
            assert(points_of(es, e.0) > 0);
        } else if e.2.0 == e.2.1 {
            assert(points_of(es, e.0) > 0);
            assert(points_of(es, e.1) > 0);
        } else {
            assert(points_of(es, e.1) > 0);
        }
    } else {
        lemma_points_over_none(es, r);
    }
}

/// The points handed out add up to three per entry with a winner and two per
/// draw.
pub proof fn lemma_points_conserved(es: Seq<EntryView>, r: Seq<(Seq<char>, int)>)
    requires
        is_standings(es, r),
    ensures
        total_points(r) == 3 * decisive_count(es) + 2 * draw_count(es),
{
    lemma_listed_once(es, r);
    lemma_total_is_points(es, r);
    lemma_points_over_all(es, r);
}

/// The standings list participants exactly when the table records a match.
pub proof fn lemma_nonempty_iff_entries(es: Seq<EntryView>, r: Seq<(Seq<char>, int)>)
    requires
        is_standings(es, r),
    ensures
        r.len() > 0 <==> es.len() > 0,
{
    if es.len() == 0 {
        assert(es =~= Seq::<EntryView>::empty());
        lemma_empty_table(r);
    } else {
        let e = es.last();
        let winner = if e.2.0 < e.2.1 { e.1 } else { e.0 };
        lemma_points_awarded(es.drop_last(), winner);
        assert(points_of(es, winner) > 0);
        let i = choose|i: int| 0 <= i < r.len() && r[i].0 == winner;
    }
}

/// Two texts that both report the standings of one table are the same text.
pub proof fn lemma_report_unique(es: Seq<EntryView>, t1: Seq<char>, t2: Seq<char>)
    requires
        reports(es, t1),
        reports(es, t2),
    ensures
        t1 == t2,
{
    if es.len() <= MAX_ENTRIES {
        let s1 = choose|s: Seq<(Seq<char>, int)>| is_standings(es, s) && t1 == json_standings(s);
        let s2 = choose|s: Seq<(Seq<char>, int)>| is_standings(es, s) && t2 == json_standings(s);
        lemma_standings_unique(es, s1, s2);
    }
}

} // verus!
