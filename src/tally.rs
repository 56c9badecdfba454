use crate::model::{
    add_name, arrival, awards, entry_awards, entry_points, entries_view, first_seen, is_standings, points_of, ranks_above, standings_view,
    EntryView,    MatchEntry, MAX_ENTRIES,
};
use vstd::prelude::*;

verus! {

/// The names of a table of running totals.
pub open spec fn names(t: Seq<(String, i64)>) -> Seq<Seq<char>> {
    t.map_values(|p: (String, i64)| p.0@)
}

/// What a name held in `t` at position `k` before a credit, zero for a new row.
pub open spec fn prior(t: Seq<(String, i64)>, k: int) -> int {
    if k < t.len() { t[k].1 as int } else { 0 }
}

/// The distinct names of `s` are those of `s`, each once.
pub proof fn lemma_first_seen(s: Seq<Seq<char>>)
    ensures
        first_seen(s).no_duplicates(),
        forall|x: Seq<char>| #[trigger] first_seen(s).contains(x) <==> s.contains(x),
    decreases s.len(),
{
    if s.len() > 0 {
        let p = s.drop_last();
        lemma_first_seen(p);
        let f = first_seen(p);
        let l = s.last();
        assert forall|x: Seq<char>| #[trigger] first_seen(s).contains(x) <==> s.contains(x) by {
            assert(s =~= p.push(l));
            if s.contains(x) && x != l {
                let i = choose|i: int| 0 <= i < s.len() && s[i] == x;
                assert(p[i] == x);
                assert(p.contains(x));
            }
            if p.contains(x) {
                let i = choose|i: int| 0 <= i < p.len() && p[i] == x;
                assert(s[i] == x);
            }
            if x == l {
                assert(s[s.len() - 1] == x);
                if !f.contains(l) {
                    assert(f.push(l)[f.len() as int] == x);
                }
            }
            if f.contains(x) && !f.contains(l) {
                let i = choose|i: int| 0 <= i < f.len() && f[i] == x;
                assert(f.push(l)[i] == x);
            }
            if first_seen(s).contains(x) && x != l && !f.contains(l) {
                let i = choose|i: int| 0 <= i < f.push(l).len() && f.push(l)[i] == x;
                assert(i < f.len());
                assert(f[i] == x);
            }
        }
        if !f.contains(l) {
            assert forall|i: int, j: int| 0 <= i < f.push(l).len() && 0 <= j < f.push(l).len() && i != j
                implies f.push(l)[i] != f.push(l)[j] by {
                if i == f.len() {
                    assert(f[j] == f.push(l)[j]);
                } else if j == f.len() {
                    assert(f[i] == f.push(l)[i]);
                }
            }
        }
    }
}

/// A sequence holds `x` exactly when one of two parts of it does.
pub proof fn lemma_contains_concat(a: Seq<Seq<char>>, b: Seq<Seq<char>>, x: Seq<char>)
    ensures
        (a + b).contains(x) <==> a.contains(x) || b.contains(x),
{
    if (a + b).contains(x) {
        let i = choose|i: int| 0 <= i < (a + b).len() && (a + b)[i] == x;
        if i >= a.len() {
            assert(b[i - a.len()] == x);
        }
    }
    if a.contains(x) {
        let i = choose|i: int| 0 <= i < a.len() && a[i] == x;
        assert((a + b)[i] == x);
    }
    if b.contains(x) {
        let i = choose|i: int| 0 <= i < b.len() && b[i] == x;
        assert((a + b)[a.len() + i] == x);
    }
}

/// A participant has points exactly when it received an award, and never more
/// than three per entry.
pub proof fn lemma_points_awarded(es: Seq<EntryView>, x: Seq<char>)
    ensures
        0 <= points_of(es, x) <= 3 * es.len(),
        points_of(es, x) > 0 <==> awards(es).contains(x),
    decreases es.len(),
{
    if es.len() > 0 {
        let p = es.drop_last();
        let e = es.last();
        lemma_points_awarded(p, x);
        lemma_contains_concat(awards(p), entry_awards(e), x);
        let ea = entry_awards(e);
        if ea.contains(x) {
            let i = choose|i: int| 0 <= i < ea.len() && ea[i] == x;
        }
        if entry_points(e, x) > 0 {
            if e.2.0 > e.2.1 {
                assert(ea[0] == x);
            } else if e.2.0 == e.2.1 {
                if e.0 == x {
                    assert(ea[0] == x);
                } else {
                    assert(ea[1] == x);
                }
            } else {
                assert(ea[0] == x);
            }
        }
    }
}

/// Adds `pts` to the row of `id`, or appends a row for it.
fn credit(table: &mut Vec<(String, i64)>, id: &String, pts: i64)
    requires
        0 <= pts,
        names(old(table)@).no_duplicates(),
        forall|k: int|
            0 <= k < old(table).len() && old(table)@[k].0@ == id@ ==> old(table)@[k].1 + pts
                <= i64::MAX,
    ensures
        names(final(table)@) == add_name(names(old(table)@), id@),
        forall|k: int|
            0 <= k < final(table).len() ==> #[trigger] final(table)@[k].1 == prior(old(table)@, k) + (
            if final(table)@[k].0@ == id@ {
                pts as int
            } else {
                0
            }),
{
    let ghost start = table@;
    let mut i: usize = 0;
    while i < table.len()
        invariant
            i <= table.len(),
            table@ == start,
            start == old(table)@,
            forall|k: int| 0 <= k < i ==> table@[k].0@ != id@,
            names(start).no_duplicates(),
            0 <= pts,
            forall|k: int|
                0 <= k < start.len() && start[k].0@ == id@ ==> start[k].1 + pts <= i64::MAX,
        decreases table.len() - i,
    {
        if table[i].0 == *id {
            assert(start[i as int].0@ == id@);
            assert(names(start)[i as int] == id@);
            assert(names(start).contains(id@));
            table[i].1 = table[i].1 + pts;
            assert(table@ =~= start.update(i as int, (start[i as int].0, (start[i as int].1 + pts) as i64)));
            assert(names(table@) =~= names(start));
            assert(names(start)[i as int] == id@);
            assert forall|k: int| 0 <= k < table.len() implies #[trigger] table@[k].1 == prior(start, k) + (
                if table@[k].0@ == id@ { pts as int } else { 0 }) by {
                if k != i {
                    assert(names(start)[k] == start[k].0@);
                }
            }
            return;
        }
        i = i + 1;
    }
    table.push((id.clone(), pts));
    assert(!names(start).contains(id@));
    assert(names(table@) =~= names(start).push(id@));
}

/// Appending a name extends the distinct names by it, unless already there.
pub proof fn lemma_first_seen_push(s: Seq<Seq<char>>, x: Seq<char>)
    ensures
        first_seen(s.push(x)) == add_name(first_seen(s), x),
{
    assert(s.push(x).drop_last() =~= s);
}

/// A participant that received no award has no points.
pub proof fn lemma_unseen_zero(es: Seq<EntryView>, x: Seq<char>)
    requires
        !first_seen(awards(es)).contains(x),
    ensures
        points_of(es, x) == 0,
{
    lemma_first_seen(awards(es));
    lemma_points_awarded(es, x);
}

/// After a credit of `pts` to `id`, each row holds what `f` gave it before,
/// plus `pts` on the row of `id`.
proof fn lemma_credited(
    t0: Seq<(String, i64)>,
    t1: Seq<(String, i64)>,
    id: Seq<char>,
    pts: int,
    f: spec_fn(Seq<char>) -> int,
)
    requires
        forall|k: int| 0 <= k < t0.len() ==> #[trigger] t0[k].1 == f(t0[k].0@),
        !names(t0).contains(id) ==> f(id) == 0,
        names(t1) == add_name(names(t0), id),
        forall|k: int|
            0 <= k < t1.len() ==> #[trigger] t1[k].1 == prior(t0, k) + (if t1[k].0@ == id {
                pts
            } else {
                0
            }),
    ensures
        forall|k: int|
            0 <= k < t1.len() ==> #[trigger] t1[k].1 == f(t1[k].0@) + (if t1[k].0@ == id {
                pts
            } else {
                0
            }),
{
    assert forall|k: int| 0 <= k < t1.len() implies #[trigger] t1[k].1 == f(t1[k].0@) + (if t1[k].0@
        == id {
        pts
    } else {
        0
    }) by {
        assert(names(t1)[k] == t1[k].0@);
        assert(names(t1).len() == t1.len());
        assert(names(t0).len() == t0.len());
        if k < t0.len() {
            assert(names(t0)[k] == t0[k].0@);
            assert(names(t1)[k] == names(t0)[k]);
        } else {
            assert(!names(t0).contains(id));
            assert(names(t1) == names(t0).push(id));
            assert(names(t1)[k] == id);
            assert(prior(t0, k) == 0);
        }
    }
}

/// The running totals of all entries: one row per participant with points,
/// in order of the first award, each with its total.
fn tally(entries: &Vec<MatchEntry>) -> (t: Vec<(String, i64)>)
    requires
        entries.len() <= MAX_ENTRIES,
    ensures
        names(t@) == first_seen(awards(entries_view(entries@))),
        forall|k: int|
            0 <= k < t.len() ==> #[trigger] t@[k].1 == points_of(entries_view(entries@), t@[k].0@),
{
    let ghost ev = entries_view(entries@);
    let mut t: Vec<(String, i64)> = Vec::new();
    let mut i: usize = 0;
    proof {
        assert(ev.subrange(0, 0) =~= Seq::<EntryView>::empty());
        assert(names(t@) =~= Seq::<Seq<char>>::empty());
    }
    while i < entries.len()
        invariant
            i <= entries.len(),
            entries.len() <= MAX_ENTRIES,
            ev == entries_view(entries@),
            names(t@) == first_seen(awards(ev.subrange(0, i as int))),
            forall|k: int|
                0 <= k < t.len() ==> #[trigger] t@[k].1 == points_of(
                    ev.subrange(0, i as int),
                    t@[k].0@,
                ),
        decreases entries.len() - i,
    {
        let ghost pv = ev.subrange(0, i as int);
        let ghost pv2 = ev.subrange(0, i + 1);
        let ghost aw = awards(pv);
        let ghost t0 = t@;
        let e = &entries[i];
        proof {
            assert(pv2.drop_last() =~= pv);
            assert(pv2.last() == e@);
            lemma_first_seen(aw);
            assert forall|k: int| 0 <= k < t0.len() implies t0[k].1 <= 3 * i by {
                lemma_points_awarded(pv, t0[k].0@);
            }
            assert(!names(t0).contains(e.first@) ==> points_of(pv, e.first@) == 0) by {
                if !names(t0).contains(e.first@) {
                    lemma_unseen_zero(pv, e.first@);
                }
            }
            assert(!names(t0).contains(e.second@) ==> points_of(pv, e.second@) == 0) by {
                if !names(t0).contains(e.second@) {
                    lemma_unseen_zero(pv, e.second@);
                }
            }
        }
        if e.result.0 > e.result.1 {
            credit(&mut t, &e.first, 3);
            proof {
                lemma_credited(t0, t@, e.first@, 3, |x: Seq<char>| points_of(pv, x));
                assert(awards(pv2) =~= aw.push(e.first@));
                lemma_first_seen_push(aw, e.first@);
            }
        } else if e.result.0 == e.result.1 {
            credit(&mut t, &e.first, 1);
            let ghost t1 = t@;
            proof {
                lemma_credited(t0, t1, e.first@, 1, |x: Seq<char>| points_of(pv, x));
                lemma_first_seen_push(aw, e.first@);
                lemma_first_seen(aw.push(e.first@));
                if !names(t1).contains(e.second@) {
                    if names(t0).contains(e.second@) {
                        let j = choose|j: int| 0 <= j < names(t0).len() && names(t0)[j] == e.second@;
                        assert(add_name(names(t0), e.first@)[j] == e.second@);
                    }
                    assert(e.second@ != e.first@);
                }
            }
            credit(&mut t, &e.second, 1);
            proof {
                lemma_credited(
                    t1,
                    t@,
                    e.second@,
                    1,
                    |x: Seq<char>| points_of(pv, x) + (if x == e.first@ { 1int } else { 0int }),
                );
                assert(awards(pv2) =~= aw.push(e.first@).push(e.second@));
                lemma_first_seen_push(aw.push(e.first@), e.second@);
            }
        } else {
            credit(&mut t, &e.second, 3);
            proof {
                lemma_credited(t0, t@, e.second@, 3, |x: Seq<char>| points_of(pv, x));
                assert(awards(pv2) =~= aw.push(e.second@));
                lemma_first_seen_push(aw, e.second@);
            }
        }
        i += 1;
    }
    proof {
        assert(ev.subrange(0, i as int) =~= ev);
    }
    t
}

/// In a list without repeats, the position of an element is where it stands.
pub proof fn lemma_index_of_distinct(f: Seq<Seq<char>>, j: int)
    requires
        f.no_duplicates(),
        0 <= j < f.len(),
    ensures
        f.index_of(f[j]) == j,
{
    assert(f.contains(f[j]));
}

/// `rv` lists rows of a table at the positions `perm`, by descending total and,
/// among equal totals, in table order.
pub open spec fn ordered_rows(rv: Seq<(Seq<char>, int)>, perm: Seq<int>) -> bool {
    forall|i: int, j: int| 0 <= i < j < rv.len() ==> #[trigger] in_rank_order(rv, perm, i, j)
}

/// Row `i` of `rv` comes before row `j` by total, then by table position.
pub open spec fn in_rank_order(rv: Seq<(Seq<char>, int)>, perm: Seq<int>, i: int, j: int) -> bool {
    rv[i].1 > rv[j].1 || (rv[i].1 == rv[j].1 && perm[i] < perm[j])
}

/// The rows of `t` ordered by descending total; rows with equal totals keep
/// their order in `t`.
fn rank(t: &Vec<(String, i64)>, es: Ghost<Seq<EntryView>>) -> (r: Vec<(String, i64)>)
    requires
        names(t@) == first_seen(awards(es@)),
        forall|k: int| 0 <= k < t.len() ==> #[trigger] t@[k].1 == points_of(es@, t@[k].0@),
    ensures
        r.len() == t.len(),
        forall|i: int|
            0 <= i < r.len() ==> standings_view(t@).contains(#[trigger] standings_view(r@)[i]),
        forall|k: int|
            0 <= k < t.len() ==> standings_view(r@).contains(#[trigger] standings_view(t@)[k]),
        forall|i: int, j: int|
            0 <= i < j < r.len() ==> #[trigger] ranks_above(
                es@,
                standings_view(r@)[i],
                standings_view(r@)[j],
            ),
{
    let ghost tv = standings_view(t@);
    let mut r: Vec<(String, i64)> = Vec::new();
    let ghost mut perm: Seq<int> = Seq::empty();
    let ghost mut place: Seq<int> = Seq::empty();
    let mut m: usize = 0;
    while m < t.len()
        invariant
            m <= t.len(),
            tv == standings_view(t@),
            r.len() == m,
            perm.len() == m,
            place.len() == m,
            forall|i: int|
                0 <= i < m ==> 0 <= #[trigger] perm[i] < m && standings_view(r@)[i] == tv[perm[i]],
            forall|k: int|
                0 <= k < m ==> 0 <= #[trigger] place[k] < m && standings_view(r@)[place[k]] == tv[k],
            ordered_rows(standings_view(r@), perm),
        decreases t.len() - m,
    {
        let v = t[m].1;
        let ghost rv = standings_view(r@);
        let mut pos: usize = 0;
        while pos < r.len() && r[pos].1 >= v
            invariant
                pos <= r.len(),
                rv == standings_view(r@),
                forall|i: int| 0 <= i < pos ==> rv[i].1 >= v,
            decreases r.len() - pos,
        {
            pos += 1;
        }
        proof {
            assert forall|i: int| pos <= i < r.len() implies rv[i].1 < v by {
                if i > pos {
                    assert(in_rank_order(rv, perm, pos as int, i));
                }
            }
        }
        let row = (t[m].0.clone(), v);
        r.insert(pos, row);
        proof {
            let nv = standings_view(r@);
            let p = pos as int;
            assert(nv =~= rv.insert(p, tv[m as int]));
            let old_perm = perm;
            let old_place = place;
            perm = old_perm.insert(p, m as int);
            place = old_place.map_values(|x: int| if x >= p { x + 1 } else { x }).push(p);
            assert forall|i: int| 0 <= i < m + 1 implies 0 <= #[trigger] perm[i] < m + 1 && nv[i] == tv[perm[i]] by {
                if i > p {
                    assert(perm[i] == old_perm[i - 1]);
                    assert(nv[i] == rv[i - 1]);
                } else if i < p {
                    assert(perm[i] == old_perm[i]);
                }
            }
            assert forall|k: int| 0 <= k < m + 1 implies 0 <= #[trigger] place[k] < m + 1 && nv[place[k]] == tv[k] by {
                if k < m {
                    let x = old_place[k];
                    assert(place[k] == if x >= p { x + 1 } else { x });
                    if x >= p {
                        assert(nv[x + 1] == rv[x]);
                    }
                }
            }
            assert forall|i: int, j: int| 0 <= i < j < nv.len() implies #[trigger] in_rank_order(nv, perm, i, j) by {
                if i < p && j < p {
                    assert(in_rank_order(rv, old_perm, i, j));
                } else if i < p && j == p {
                } else if i < p {
                    assert(perm[j] == old_perm[j - 1]);
                    assert(nv[j] == rv[j - 1]);
                    assert(in_rank_order(rv, old_perm, i, j - 1));
                } else if i == p {
                    assert(nv[j] == rv[j - 1]);
                } else {
                    assert(perm[j] == old_perm[j - 1]);
                    assert(perm[i] == old_perm[i - 1]);
                    assert(nv[j] == rv[j - 1]);
                    assert(nv[i] == rv[i - 1]);
                    assert(in_rank_order(rv, old_perm, i - 1, j - 1));
                }
            }
            assert(ordered_rows(nv, perm));
        }
        m += 1;
    }
    proof {
        let rv = standings_view(r@);
        let f = first_seen(awards(es@));
        lemma_first_seen(awards(es@));
        assert forall|i: int| 0 <= i < r.len() implies arrival(es@, #[trigger] rv[i].0) == perm[i] by {
            assert(f[perm[i]] == names(t@)[perm[i]]);
            lemma_index_of_distinct(f, perm[i]);
        }
        assert forall|i: int, j: int| 0 <= i < j < r.len() implies #[trigger] ranks_above(es@, rv[i], rv[j]) by {
            assert(in_rank_order(rv, perm, i, j));
            assert(arrival(es@, rv[i].0) == perm[i]);
            assert(arrival(es@, rv[j].0) == perm[j]);
        }
        assert forall|k: int| 0 <= k < t.len() implies rv.contains(#[trigger] tv[k]) by {
            assert(rv[place[k]] == tv[k]);
        }
        assert forall|i: int| 0 <= i < r.len() implies tv.contains(#[trigger] rv[i]) by {
            assert(rv[i] == tv[perm[i]]);
        }
    }
    r
}

/// The standings of the recorded matches: every participant that received
/// points, with its total, ranked by descending total; participants with equal
/// totals stand in the order in which they first received points.
pub fn compute_standings(entries: &Vec<MatchEntry>) -> (r: Vec<(String, i64)>)
    requires
        entries.len() <= MAX_ENTRIES,
    ensures
        is_standings(entries_view(entries@), standings_view(r@)),
{
    let ghost es = entries_view(entries@);
    let t = tally(entries);
    let r = rank(&t, Ghost(es));
    proof {
        let rv = standings_view(r@);
        let tv = standings_view(t@);
        let aw = awards(es);
        lemma_first_seen(aw);
        assert forall|i: int| 0 <= i < rv.len() implies rv[i].1 == #[trigger] points_of(es, rv[i].0)
            && rv[i].1 > 0 by {
            assert(tv.contains(rv[i]));
            let k = choose|k: int| 0 <= k < tv.len() && tv[k] == rv[i];
            assert(names(t@)[k] == t@[k].0@);
            assert(first_seen(aw).contains(rv[i].0));
            lemma_points_awarded(es, rv[i].0);
        }
        assert forall|id: Seq<char>| #[trigger] points_of(es, id) > 0 implies exists|i: int|
            0 <= i < rv.len() && rv[i].0 == id by {
            lemma_points_awarded(es, id);
            assert(first_seen(aw).contains(id));
            let k = choose|k: int| 0 <= k < names(t@).len() && names(t@)[k] == id;
            assert(tv[k].0 == id);
            assert(rv.contains(tv[k]));
            let i = choose|i: int| 0 <= i < rv.len() && rv[i] == tv[k];
            assert(rv[i].0 == id);
        }
    }
    r
}

} // verus!
