//! The model of a board: a candidate set for each position, and what a move
//! and its propagation make of it.
use crate::cell::{
    all_digits, candidates_wf, lemma_the_digit, lemma_the_digit_of_single, the_digit,
};
use vstd::prelude::*;
use vstd::relations::injective_on;
use vstd::set_lib::*;

verus! {

/// Whether `p`, a column and a row, is a position of the grid.
pub open spec fn in_grid(p: (int, int)) -> bool {
    0 <= p.0 < 9 && 0 <= p.1 < 9
}

/// The positions of the grid.
pub open spec fn positions() -> Set<(int, int)> {
    Set::new(|p: (int, int)| in_grid(p))
}

/// What the model of a board has to be: a candidate set for each position of
/// the grid and for nothing else.
pub open spec fn grid_wf(g: Map<(int, int), Set<int>>) -> bool {
    &&& g.dom() == positions()
    &&& forall|p: (int, int)| in_grid(p) ==> candidates_wf(#[trigger] g[p])
}

/// Whether a candidate set holds exactly one digit.
pub open spec fn settled(s: Set<int>) -> bool {
    s.len() == 1
}

/// Whether `p` and `q` are two positions that share a column, a row or a
/// block.
pub open spec fn peers(p: (int, int), q: (int, int)) -> bool {
    &&& p != q
    &&& (p.0 == q.0 || p.1 == q.1 || (p.0 / 3 == q.0 / 3 && p.1 / 3 == q.1 / 3))
}

/// Whether `u`, a column, a row and a digit, names a position of the grid and
/// one of the nine digits.
pub open spec fn unit_ok(u: (int, int, int)) -> bool {
    in_grid((u.0, u.1)) && 0 <= u.2 < 9
}

/// Whether every unit of `stack` is one of the grid.
pub open spec fn units_ok(stack: Seq<(int, int, int)>) -> bool {
    forall|i: int| 0 <= i < stack.len() ==> unit_ok(#[trigger] stack[i])
}

/// The position looked at in step `i` of the sweep around column `c` and row
/// `r`.
///
/// The first 162 steps go through the 81 pairs of a row index and a column
/// index, row index first: each pair looks at the cell of column `c` in that
/// row, then at the cell of row `r` in that column. The last nine steps go
/// through the block of `(c, r)`, row by row.
pub open spec fn sweep_at(c: int, r: int, i: int) -> (int, int) {
    if i < 162 {
        if i % 2 == 0 {
            (c, i / 18)
        } else {
            ((i / 2) % 9, r)
        }
    } else {
        (c / 3 * 3 + (i - 162) % 3, r / 3 * 3 + (i - 162) / 3)
    }
}

/// The positions that a propagation from column `c` and row `r` looks at, in
/// order.
pub open spec fn sweep(c: int, r: int) -> Seq<(int, int)> {
    Seq::new(171, |i: int| sweep_at(c, r, i))
}

/// The grid after digit `d` was taken from position `p`, unless `p` is
/// settled: a settled position keeps its digit.
pub open spec fn visit(g: Map<(int, int), Set<int>>, p: (int, int), d: int) -> Map<
    (int, int),
    Set<int>,
> {
    if settled(g[p]) {
        g
    } else {
        g.insert(p, g[p].remove(d))
    }
}

/// Whether taking digit `d` from position `p` leaves `p` with a single digit.
pub open spec fn collapses(g: Map<(int, int), Set<int>>, p: (int, int), d: int) -> bool {
    !settled(g[p]) && settled(g[p].remove(d))
}

/// The grid after digit `d` was taken from the positions `ps`, one after the
/// other.
pub open spec fn scan(g: Map<(int, int), Set<int>>, ps: Seq<(int, int)>, d: int) -> Map<
    (int, int),
    Set<int>,
>
    decreases ps.len(),
{
    if ps.len() == 0 {
        g
    } else {
        visit(scan(g, ps.drop_last(), d), ps.last(), d)
    }
}

/// The positions that were left with a single digit while digit `d` was taken
/// from the positions `ps`, each with that digit, in the order in which it
/// happened.
pub open spec fn found(g: Map<(int, int), Set<int>>, ps: Seq<(int, int)>, d: int) -> Seq<
    (int, int, int),
>
    decreases ps.len(),
{
    if ps.len() == 0 {
        Seq::empty()
    } else {
        let before = scan(g, ps.drop_last(), d);
        let p = ps.last();
        if collapses(before, p, d) {
            found(g, ps.drop_last(), d).push((p.0, p.1, the_digit(before[p].remove(d))))
        } else {
            found(g, ps.drop_last(), d)
        }
    }
}

/// The candidates of the whole grid: each position with each digit that is
/// possible there.
pub open spec fn facts(g: Map<(int, int), Set<int>>) -> Set<(int, int, int)> {
    Set::new(|f: (int, int, int)| in_grid((f.0, f.1)) && g[(f.0, f.1)].contains(f.2))
}

/// How many candidates the grid holds, all positions together.
pub open spec fn total(g: Map<(int, int), Set<int>>) -> nat {
    facts(g).len()
}

/// Every position with every digit.
pub open spec fn all_facts() -> Set<(int, int, int)> {
    Set::new(|f: (int, int, int)| unit_ok(f))
}

/// There are 81 positions.
pub proof fn lemma_positions()
    ensures
        positions().finite(),
        positions().len() == 81,
{
    let f = |i: int| (i / 9, i % 9);
    let range = set_int_range(0, 81);
    lemma_int_range(0, 81);
    assert(range.map(f) =~= positions()) by {
        assert forall|p: (int, int)| positions().contains(p) implies range.map(f).contains(p) by {
            let i = p.0 * 9 + p.1;
            assert(range.contains(i) && f(i) == p);
        }
    }
    assert(injective_on(f, range));
    lemma_map_size(range, positions(), f);
}

/// There are no more than 729 pairs of a position and a digit.
pub proof fn lemma_all_facts()
    ensures
        all_facts().finite(),
        all_facts().len() <= 729,
{
    let f = |i: int| (i / 81, (i / 9) % 9, i % 9);
    let range = set_int_range(0, 729);
    lemma_int_range(0, 729);
    assert(range.map(f) =~= all_facts()) by {
        assert forall|t: (int, int, int)| all_facts().contains(t) implies range.map(f).contains(
            t,
        ) by {
            let i = t.0 * 81 + t.1 * 9 + t.2;
            assert(range.contains(i) && f(i) == t);
        }
    }
    lemma_map_size_bound(range, all_facts(), f);
}

/// A grid holds at least one candidate for each position and at most nine.
pub proof fn lemma_total_bounds(g: Map<(int, int), Set<int>>)
    requires
        grid_wf(g),
    ensures
        facts(g).finite(),
        81 <= total(g) <= 729,
{
    broadcast use vstd::set::group_set_axioms;

    lemma_all_facts();
    assert(facts(g).subset_of(all_facts())) by {
        assert forall|t: (int, int, int)| facts(g).contains(t) implies all_facts().contains(t) by {
            assert(candidates_wf(g[(t.0, t.1)]));
        }
    }
    lemma_len_subset(facts(g), all_facts());
    lemma_positions();
    let h = |p: (int, int)| (p.0, p.1, g[p].choose());
    let image = positions().map(h);
    assert(injective_on(h, positions()));
    lemma_map_size(positions(), image, h);
    assert(image.subset_of(facts(g))) by {
        assert forall|t: (int, int, int)| image.contains(t) implies facts(g).contains(t) by {
            let p = choose|p: (int, int)| positions().contains(p) && h(p) == t;
            assert(candidates_wf(g[p]));
            assert(g[p].contains(g[p].choose()));
        }
    }
    lemma_len_subset(image, facts(g));
}

/// Taking a digit from one position leaves a grid, takes at most one
/// candidate from it, and exactly one where the position is left with a
/// single digit. No position gains a digit, and a settled one keeps its own.
pub proof fn lemma_visit(g: Map<(int, int), Set<int>>, p: (int, int), d: int)
    requires
        grid_wf(g),
        in_grid(p),
        0 <= d < 9,
    ensures
        grid_wf(visit(g, p, d)),
        total(visit(g, p, d)) + (if collapses(g, p, d) { 1nat } else { 0nat }) <= total(g),
        total(g) <= total(visit(g, p, d)) + 1,
        collapses(g, p, d) ==> 0 <= the_digit(g[p].remove(d)) < 9,
        forall|q: (int, int)| in_grid(q) ==> (#[trigger] visit(g, p, d)[q]).subset_of(g[q]),
        forall|q: (int, int)| in_grid(q) && settled(g[q]) ==> #[trigger] visit(g, p, d)[q] == g[q],
{
    broadcast use vstd::set::group_set_axioms;

    lemma_total_bounds(g);
    let after = visit(g, p, d);
    let s = g[p];
    assert(candidates_wf(s));
    if !settled(s) {
        let t = s.remove(d);
        assert(after.dom() =~= positions());
        assert(t.subset_of(all_digits()));
        assert forall|q: (int, int)| in_grid(q) implies candidates_wf(#[trigger] after[q]) by {
            assert(candidates_wf(g[q]));
        }
        if s.contains(d) {
            assert(facts(after) =~= facts(g).remove((p.0, p.1, d)));
            assert(facts(g).contains((p.0, p.1, d)));
        } else {
            assert(t =~= s);
            assert(after =~= g);
        }
        if collapses(g, p, d) {
            lemma_the_digit(t);
        }
    }
}

/// Taking a digit from a sequence of positions leaves a grid. Each position
/// that is left with a single digit on the way costs the grid a candidate.
pub proof fn lemma_scan(g: Map<(int, int), Set<int>>, ps: Seq<(int, int)>, d: int)
    requires
        grid_wf(g),
        forall|i: int| 0 <= i < ps.len() ==> in_grid(#[trigger] ps[i]),
        0 <= d < 9,
    ensures
        grid_wf(scan(g, ps, d)),
        units_ok(found(g, ps, d)),
        total(scan(g, ps, d)) + found(g, ps, d).len() <= total(g),
        total(g) <= total(scan(g, ps, d)) + ps.len(),
        forall|q: (int, int)| in_grid(q) ==> (#[trigger] scan(g, ps, d)[q]).subset_of(g[q]),
        forall|q: (int, int)| in_grid(q) && settled(g[q]) ==> #[trigger] scan(g, ps, d)[q] == g[q],
    decreases ps.len(),
{
    if ps.len() > 0 {
        let front = ps.drop_last();
        lemma_scan(g, front, d);
        let before = scan(g, front, d);
        lemma_visit(before, ps.last(), d);
        assert forall|q: (int, int)| in_grid(q) implies (#[trigger] scan(g, ps, d)[q]).subset_of(
            g[q],
        ) by {
            assert(visit(before, ps.last(), d)[q].subset_of(before[q]));
            assert(before[q].subset_of(g[q]));
        }
        assert forall|q: (int, int)| in_grid(q) && settled(g[q]) implies #[trigger] scan(
            g,
            ps,
            d,
        )[q] == g[q] by {
            assert(before[q] == g[q]);
            assert(visit(before, ps.last(), d)[q] == before[q]);
        }
    }
}

/// Every position of a sweep around a position of the grid is one of the
/// grid.
pub proof fn lemma_sweep_in_grid(c: int, r: int)
    requires
        in_grid((c, r)),
    ensures
        sweep(c, r).len() == 171,
        forall|i: int| 0 <= i < 171 ==> in_grid(#[trigger] sweep(c, r)[i]),
{
}

/// The grid after the units of `stack` were propagated, the last one first.
///
/// To propagate a unit is to take its digit from the positions of the sweep
/// around its position. Each position that this leaves with a single digit is
/// a unit to propagate in turn: those of one sweep go on top of the stack, so
/// the one found last is propagated next, before the units that waited.
pub open spec fn run(g: Map<(int, int), Set<int>>, stack: Seq<(int, int, int)>) -> Map<
    (int, int),
    Set<int>,
>
    recommends
        grid_wf(g),
        units_ok(stack),
    decreases total(g) + stack.len(),
    when grid_wf(g) && units_ok(stack)
    via run_decreases
{
    if stack.len() == 0 {
        g
    } else {
        let u = stack.last();
        run(
            scan(g, sweep(u.0, u.1), u.2),
            stack.drop_last() + found(g, sweep(u.0, u.1), u.2),
        )
    }
}

#[via_fn]
proof fn run_decreases(g: Map<(int, int), Set<int>>, stack: Seq<(int, int, int)>) {
    if stack.len() > 0 {
        let u = stack.last();
        assert(unit_ok(u));
        lemma_sweep_in_grid(u.0, u.1);
        lemma_scan(g, sweep(u.0, u.1), u.2);
    }
}

/// Propagation leaves a grid. It adds no candidate to any position, and a
/// position that was settled keeps its digit.
pub proof fn lemma_run(g: Map<(int, int), Set<int>>, stack: Seq<(int, int, int)>)
    requires
        grid_wf(g),
        units_ok(stack),
    ensures
        grid_wf(run(g, stack)),
        total(run(g, stack)) <= total(g),
        forall|q: (int, int)| in_grid(q) ==> (#[trigger] run(g, stack)[q]).subset_of(g[q]),
        forall|q: (int, int)| in_grid(q) && settled(g[q]) ==> #[trigger] run(g, stack)[q] == g[q],
    decreases total(g) + stack.len(),
{
    if stack.len() > 0 {
        let u = stack.last();
        assert(unit_ok(u));
        lemma_sweep_in_grid(u.0, u.1);
        lemma_scan(g, sweep(u.0, u.1), u.2);
        let next = scan(g, sweep(u.0, u.1), u.2);
        let rest = stack.drop_last() + found(g, sweep(u.0, u.1), u.2);
        lemma_run(next, rest);
        assert forall|q: (int, int)| in_grid(q) implies (#[trigger] run(g, stack)[q]).subset_of(
            g[q],
        ) by {
            assert(run(next, rest)[q].subset_of(next[q]));
            assert(next[q].subset_of(g[q]));
        }
        assert forall|q: (int, int)| in_grid(q) && settled(g[q]) implies #[trigger] run(
            g,
            stack,
        )[q] == g[q] by {
            assert(next[q] == g[q]);
            assert(run(next, rest)[q] == next[q]);
        }
    }
}

/// Propagating the units on top of a stack to the end, and the units below
/// them after that, is propagating the whole stack.
pub proof fn lemma_run_split(
    g: Map<(int, int), Set<int>>,
    below: Seq<(int, int, int)>,
    top: Seq<(int, int, int)>,
)
    requires
        grid_wf(g),
        units_ok(below),
        units_ok(top),
    ensures
        run(g, below + top) == run(run(g, top), below),
    decreases total(g) + top.len(),
{
    if top.len() == 0 {
        assert(below + top =~= below);
    } else {
        let u = top.last();
        assert(unit_ok(u));
        lemma_sweep_in_grid(u.0, u.1);
        lemma_scan(g, sweep(u.0, u.1), u.2);
        let next = scan(g, sweep(u.0, u.1), u.2);
        let fresh = found(g, sweep(u.0, u.1), u.2);
        let whole = below + top;
        assert(whole.last() == u);
        assert(whole.drop_last() + fresh =~= below + (top.drop_last() + fresh));
        assert(units_ok(whole));
        lemma_run_split(next, below, top.drop_last() + fresh);
    }
}

/// The grid after digit `d` was fixed at column `c` and row `r` and
/// propagated from there.
pub open spec fn play(g: Map<(int, int), Set<int>>, c: int, r: int, d: int) -> Map<
    (int, int),
    Set<int>,
> {
    run(g.insert((c, r), set![d]), seq![(c, r, d)])
}

/// What a move leaves: a grid in which the position played holds the digit
/// played and nothing else, no other position has gained a digit, and every
/// other position that was settled holds what it held.
///
/// Each change that a propagation makes to a position takes one candidate
/// from the grid, and a grid never holds fewer than 81 candidates nor more
/// than 729: a move takes no more than 81 times 8 candidates, and its
/// propagation changes a position no more often than that.
pub proof fn lemma_play(g: Map<(int, int), Set<int>>, c: int, r: int, d: int)
    requires
        grid_wf(g),
        in_grid((c, r)),
        0 <= d < 9,
    ensures
        grid_wf(play(g, c, r, d)),
        play(g, c, r, d)[(c, r)] == set![d],
        forall|q: (int, int)|
            in_grid(q) && q != (c, r) ==> (#[trigger] play(g, c, r, d)[q]).subset_of(g[q]),
        forall|q: (int, int)|
            in_grid(q) && q != (c, r) && settled(g[q]) ==> #[trigger] play(g, c, r, d)[q] == g[q],
        total(g) - total(play(g, c, r, d)) <= 648,
{
    let fixed = g.insert((c, r), set![d]);
    let stack = seq![(c, r, d)];
    lemma_fixed(g, c, r, d);
    assert(units_ok(stack));
    lemma_run(fixed, stack);
    lemma_total_bounds(g);
    lemma_total_bounds(play(g, c, r, d));
    assert(run(fixed, stack)[(c, r)] == fixed[(c, r)]);
    assert forall|q: (int, int)| in_grid(q) && q != (c, r) implies (#[trigger] play(
        g,
        c,
        r,
        d,
    )[q]).subset_of(g[q]) by {
        assert(run(fixed, stack)[q].subset_of(fixed[q]));
    }
    assert forall|q: (int, int)| in_grid(q) && q != (c, r) && settled(g[q]) implies #[trigger] play(
        g,
        c,
        r,
        d,
    )[q] == g[q] by {
        assert(fixed[q] == g[q]);
        assert(run(fixed, stack)[q] == fixed[q]);
    }
}

/// Fixing a digit at a position of a grid leaves a grid, in which the
/// position is settled.
pub proof fn lemma_fixed(g: Map<(int, int), Set<int>>, c: int, r: int, d: int)
    requires
        grid_wf(g),
        in_grid((c, r)),
        0 <= d < 9,
    ensures
        grid_wf(g.insert((c, r), set![d])),
        settled(g.insert((c, r), set![d])[(c, r)]),
        the_digit(set![d]) == d,
{
    let fixed = g.insert((c, r), set![d]);
    lemma_the_digit_of_single(d);
    assert(fixed.dom() =~= positions());
    assert(set![d].subset_of(all_digits()));
    assert forall|p: (int, int)| in_grid(p) implies candidates_wf(#[trigger] fixed[p]) by {
        assert(candidates_wf(g[p]));
    }
}

/// Whether every position of the grid is settled.
pub open spec fn finished(g: Map<(int, int), Set<int>>) -> bool {
    forall|p: (int, int)| in_grid(p) ==> settled(#[trigger] g[p])
}

/// Position `i` of the grid in reading order: row by row, each row from its
/// first column to its last.
pub open spec fn reading(i: int) -> (int, int) {
    (i % 9, i / 9)
}

/// The settled positions among the first `n` in reading order, in that order.
pub open spec fn settled_upto(g: Map<(int, int), Set<int>>, n: nat) -> Seq<(int, int)>
    decreases n,
{
    if n == 0 {
        Seq::empty()
    } else if settled(g[reading(n - 1)]) {
        settled_upto(g, (n - 1) as nat).push(reading(n - 1))
    } else {
        settled_upto(g, (n - 1) as nat)
    }
}

/// The settled positions of the grid, in reading order.
pub open spec fn settled_cells(g: Map<(int, int), Set<int>>) -> Seq<(int, int)> {
    settled_upto(g, 81)
}

/// Whether `p` is not settled and no position that is not settled holds fewer
/// digits than `p`.
pub open spec fn is_least(g: Map<(int, int), Set<int>>, p: (int, int)) -> bool {
    &&& !settled(g[p])
    &&& forall|q: (int, int)| in_grid(q) && !settled(#[trigger] g[q]) ==> g[p].len() <= g[q].len()
}

/// The positions among the first `n` in reading order that are not settled
/// and hold the fewest digits of all such positions, in that order.
pub open spec fn least_upto(g: Map<(int, int), Set<int>>, n: nat) -> Seq<(int, int)>
    decreases n,
{
    if n == 0 {
        Seq::empty()
    } else if is_least(g, reading(n - 1)) {
        least_upto(g, (n - 1) as nat).push(reading(n - 1))
    } else {
        least_upto(g, (n - 1) as nat)
    }
}

/// The positions that are not settled and hold the fewest digits of all such
/// positions, the last in reading order first.
pub open spec fn least_cells(g: Map<(int, int), Set<int>>) -> Seq<(int, int)> {
    least_upto(g, 81).reverse()
}

/// The settled positions in reading order are the settled positions, each
/// once, the earlier in reading order first.
pub proof fn lemma_settled_upto(g: Map<(int, int), Set<int>>, n: nat)
    requires
        n <= 81,
    ensures
        settled_upto(g, n).len() <= n,
        forall|i: int|
            0 <= i < settled_upto(g, n).len() ==> {
                let p = #[trigger] settled_upto(g, n)[i];
                in_grid(p) && settled(g[p]) && p.1 * 9 + p.0 < n
            },
        forall|i: int, j: int|
            0 <= i < j < settled_upto(g, n).len() ==> {
                let p = #[trigger] settled_upto(g, n)[i];
                let q = #[trigger] settled_upto(g, n)[j];
                p.1 * 9 + p.0 < q.1 * 9 + q.0
            },
        forall|p: (int, int)|
            in_grid(p) && settled(#[trigger] g[p]) && p.1 * 9 + p.0 < n ==> settled_upto(
                g,
                n,
            ).contains(p),
    decreases n,
{
    if n > 0 {
        let m = (n - 1) as nat;
        lemma_settled_upto(g, m);
        let prev = settled_upto(g, m);
        let cur = settled_upto(g, n);
        let last = reading(m as int);
        assert forall|p: (int, int)|
            in_grid(p) && settled(#[trigger] g[p]) && p.1 * 9 + p.0 < n implies cur.contains(p) by {
            if p.1 * 9 + p.0 == m {
                assert(p == last);
                assert(cur[prev.len() as int] == p);
            } else {
                assert(prev.contains(p));
                let i = choose|i: int| 0 <= i < prev.len() && prev[i] == p;
                assert(cur[i] == p);
            }
        }
    }
}

/// The least positions in reading order are the positions that are not
/// settled and hold the fewest digits, each once, the earlier in reading
/// order first.
pub proof fn lemma_least_upto(g: Map<(int, int), Set<int>>, n: nat)
    requires
        n <= 81,
    ensures
        least_upto(g, n).len() <= n,
        forall|i: int|
            0 <= i < least_upto(g, n).len() ==> {
                let p = #[trigger] least_upto(g, n)[i];
                in_grid(p) && is_least(g, p) && p.1 * 9 + p.0 < n
            },
        forall|i: int, j: int|
            0 <= i < j < least_upto(g, n).len() ==> {
                let p = #[trigger] least_upto(g, n)[i];
                let q = #[trigger] least_upto(g, n)[j];
                p.1 * 9 + p.0 < q.1 * 9 + q.0
            },
        forall|p: (int, int)|
            in_grid(p) && is_least(g, p) && p.1 * 9 + p.0 < n ==> #[trigger] least_upto(
                g,
                n,
            ).contains(p),
    decreases n,
{
    if n > 0 {
        let m = (n - 1) as nat;
        lemma_least_upto(g, m);
        let prev = least_upto(g, m);
        let cur = least_upto(g, n);
        let last = reading(m as int);
        assert forall|p: (int, int)|
            in_grid(p) && is_least(g, p) && p.1 * 9 + p.0 < n implies #[trigger] cur.contains(p) by {
            if p.1 * 9 + p.0 == m {
                assert(p == last);
                assert(cur[prev.len() as int] == p);
            } else {
                assert(prev.contains(p));
                let i = choose|i: int| 0 <= i < prev.len() && prev[i] == p;
                assert(cur[i] == p);
            }
        }
    }
}

/// The positions of the grid that are not settled.
pub open spec fn open_cells(g: Map<(int, int), Set<int>>) -> Set<(int, int)> {
    Set::new(|p: (int, int)| in_grid(p) && !settled(g[p]))
}

/// How many positions of the grid are not settled.
pub open spec fn open_count(g: Map<(int, int), Set<int>>) -> nat {
    open_cells(g).len()
}

/// No more than 81 positions are not settled, and none is exactly where the
/// grid is finished.
pub proof fn lemma_open_count(g: Map<(int, int), Set<int>>)
    ensures
        open_cells(g).finite(),
        open_count(g) <= 81,
        open_count(g) == 0 <==> finished(g),
{
    broadcast use vstd::set::group_set_axioms;

    lemma_positions();
    lemma_len_subset(open_cells(g), positions());
    if finished(g) {
        assert(open_cells(g) =~= Set::empty());
    }
    if open_count(g) == 0 {
        open_cells(g).lemma_len0_is_empty();
        assert forall|p: (int, int)| in_grid(p) implies settled(#[trigger] g[p]) by {
            assert(!open_cells(g).contains(p));
        }
    }
}

/// A move at a position that is not settled leaves fewer positions that are
/// not settled.
pub proof fn lemma_play_settles(g: Map<(int, int), Set<int>>, c: int, r: int, d: int)
    requires
        grid_wf(g),
        in_grid((c, r)),
        0 <= d < 9,
        !settled(g[(c, r)]),
    ensures
        open_count(play(g, c, r, d)) < open_count(g),
{
    broadcast use vstd::set::group_set_axioms;

    let after = play(g, c, r, d);
    lemma_play(g, c, r, d);
    lemma_the_digit_of_single(d);
    lemma_open_count(g);
    lemma_open_count(after);
    let rest = open_cells(g).remove((c, r));
    assert(open_cells(after).subset_of(rest)) by {
        assert forall|p: (int, int)| open_cells(after).contains(p) implies rest.contains(p) by {
            if p != (c, r) && settled(g[p]) {
                assert(after[p] == g[p]);
            }
        }
    }
    lemma_len_subset(open_cells(after), rest);
}

/// Making every digit possible again at a settled position leaves one more
/// position that is not settled.
pub proof fn lemma_reset_opens(g: Map<(int, int), Set<int>>, p: (int, int))
    requires
        in_grid(p),
        settled(g[p]),
    ensures
        open_count(g.insert(p, all_digits())) == open_count(g) + 1,
{
    broadcast use vstd::set::group_set_axioms;

    crate::cell::lemma_all_digits();
    lemma_open_count(g);
    assert(open_cells(g.insert(p, all_digits())) =~= open_cells(g).insert(p));
}

} // verus!
