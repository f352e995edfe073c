//! What moves keep true of a grid: which digits settled positions hold and
//! which digits the positions around them have lost.
use crate::cell::{
    all_digits, lemma_all_digits, lemma_the_digit, lemma_the_digit_of_single, the_digit,
};
use crate::grid::{
    collapses, found, grid_wf, in_grid, lemma_fixed, lemma_play, lemma_run, lemma_scan,
    lemma_sweep_in_grid, lemma_visit, peers, play, run, scan, settled, sweep, total, unit_ok,
    units_ok, visit,
};
use vstd::prelude::*;

verus! {

/// No two settled positions that share a column, a row or a block hold the
/// same digit.
pub open spec fn distinct(g: Map<(int, int), Set<int>>) -> bool {
    forall|p: (int, int), q: (int, int)|
        in_grid(p) && in_grid(q) && #[trigger] peers(p, q) && settled(g[p]) && settled(g[q])
            ==> g[p] != g[q]
}

/// No position that holds several digits holds the digit of a settled
/// position with which it shares a column, a row or a block.
pub open spec fn propagated(g: Map<(int, int), Set<int>>) -> bool {
    forall|p: (int, int), q: (int, int)|
        in_grid(p) && in_grid(q) && #[trigger] peers(p, q) && settled(g[p]) && !settled(g[q])
            ==> !g[q].contains(the_digit(g[p]))
}

/// The digit of position `p` has been taken from every position that shares
/// a column, a row or a block with `p` and holds several digits.
pub open spec fn cleared(g: Map<(int, int), Set<int>>, p: (int, int)) -> bool {
    forall|q: (int, int)|
        in_grid(q) && #[trigger] peers(p, q) ==> settled(g[q]) || !g[q].contains(the_digit(g[p]))
}

/// Position `p` waits on `stack` with the digit that it holds.
pub open spec fn waiting(
    g: Map<(int, int), Set<int>>,
    stack: Seq<(int, int, int)>,
    p: (int, int),
) -> bool {
    exists|i: int| 0 <= i < stack.len() && #[trigger] stack[i] == (p.0, p.1, the_digit(g[p]))
}

/// What holds of a grid and the units that wait to be propagated, all the
/// way through a propagation: each unit names a settled position and its
/// digit, and each settled position either waits or has had its digit taken
/// from the positions around it.
pub open spec fn in_step(g: Map<(int, int), Set<int>>, stack: Seq<(int, int, int)>) -> bool {
    &&& grid_wf(g)
    &&& units_ok(stack)
    &&& forall|i: int|
        0 <= i < stack.len() ==> g[((#[trigger] stack[i]).0, stack[i].1)] == set![stack[i].2]
    &&& forall|p: (int, int)|
        in_grid(p) && settled(#[trigger] g[p]) ==> waiting(g, stack, p) || cleared(g, p)
}

/// A sweep looks at every position that shares a column, a row or a block
/// with the position it goes around.
pub proof fn lemma_sweep_covers(c: int, r: int, q: (int, int))
    requires
        in_grid((c, r)),
        in_grid(q),
        peers((c, r), q),
    ensures
        exists|k: int| 0 <= k < 171 && #[trigger] sweep(c, r)[k] == q,
{
    if q.0 == c {
        assert(sweep(c, r)[18 * q.1] == q);
    } else if q.1 == r {
        assert(sweep(c, r)[2 * q.0 + 1] == q);
    } else {
        let k = 162 + 3 * (q.1 - r / 3 * 3) + (q.0 - c / 3 * 3);
        assert(sweep(c, r)[k] == q);
    }
}

/// What taking a digit from a sequence of positions does, position by
/// position: each unit found names a position that was not settled and is
/// now, with its digit; each position that became settled was found; each
/// position looked at was settled before or has lost the digit; and no other
/// position has changed.
pub proof fn lemma_scan_trace(g: Map<(int, int), Set<int>>, ps: Seq<(int, int)>, d: int)
    requires
        grid_wf(g),
        forall|i: int| 0 <= i < ps.len() ==> in_grid(#[trigger] ps[i]),
        0 <= d < 9,
    ensures
        forall|i: int|
            0 <= i < found(g, ps, d).len() ==> {
                let u = #[trigger] found(g, ps, d)[i];
                &&& in_grid((u.0, u.1))
                &&& !settled(g[(u.0, u.1)])
                &&& scan(g, ps, d)[(u.0, u.1)] == set![u.2]
            },
        forall|q: (int, int)|
            in_grid(q) && !settled(g[q]) && settled(#[trigger] scan(g, ps, d)[q]) ==> found(
                g,
                ps,
                d,
            ).contains((q.0, q.1, the_digit(scan(g, ps, d)[q]))),
        forall|k: int|
            0 <= k < ps.len() ==> settled(g[#[trigger] ps[k]]) || !scan(g, ps, d)[ps[k]].contains(d),
        forall|q: (int, int)|
            in_grid(q) && (forall|k: int| 0 <= k < ps.len() ==> #[trigger] ps[k] != q) ==> #[trigger] scan(
                g,
                ps,
                d,
            )[q] == g[q],
    decreases ps.len(),
{
    if ps.len() > 0 {
        let front = ps.drop_last();
        let last = ps.last();
        let before = scan(g, front, d);
        let after = scan(g, ps, d);
        let units = found(g, front, d);
        let all = found(g, ps, d);
        lemma_scan_trace(g, front, d);
        lemma_scan(g, front, d);
        lemma_visit(before, last, d);
        assert(after == visit(before, last, d));
        if collapses(before, last, d) {
            lemma_the_digit(before[last].remove(d));
        }
        assert forall|i: int| 0 <= i < all.len() implies {
            let u = #[trigger] all[i];
            &&& in_grid((u.0, u.1))
            &&& !settled(g[(u.0, u.1)])
            &&& after[(u.0, u.1)] == set![u.2]
        } by {
            let u = all[i];
            if i < units.len() {
                assert(u == units[i]);
                lemma_the_digit_of_single(u.2);
                assert(settled(before[(u.0, u.1)]));
                assert(after[(u.0, u.1)] == before[(u.0, u.1)]);
            } else {
                assert(u == (last.0, last.1, the_digit(before[last].remove(d))));
                assert((u.0, u.1) == last);
                if settled(g[last]) {
                    assert(before[last] == g[last]);
                }
            }
        }
        assert forall|q: (int, int)|
            in_grid(q) && !settled(g[q]) && settled(#[trigger] after[q]) implies all.contains(
            (q.0, q.1, the_digit(after[q])),
        ) by {
            if settled(before[q]) {
                assert(after[q] == before[q]);
                let unit = (q.0, q.1, the_digit(before[q]));
                assert(units.contains(unit));
                let i = choose|i: int| 0 <= i < units.len() && units[i] == unit;
                assert(all[i] == unit);
            } else {
                assert(q == last);
                assert(all[all.len() - 1] == (q.0, q.1, the_digit(after[q])));
            }
        }
        assert forall|q: (int, int)|
            in_grid(q) && (forall|k: int| 0 <= k < ps.len() ==> #[trigger] ps[k] != q) implies #[trigger] after[q]
            == g[q] by {
            assert(ps[ps.len() - 1] != q);
            assert forall|k: int| 0 <= k < front.len() implies #[trigger] front[k] != q by {
                assert(front[k] == ps[k]);
            }
            assert(before[q] == g[q]);
        }
        assert forall|k: int| 0 <= k < ps.len() implies settled(g[#[trigger] ps[k]]) || !after[ps[k]].contains(
            d,
        ) by {
            let q = ps[k];
            if k < front.len() {
                assert(front[k] == q);
                assert(after[q].subset_of(before[q]));
            } else if !settled(g[q]) {
                if settled(before[q]) {
                    if forall|j: int| 0 <= j < front.len() ==> #[trigger] front[j] != q {
                        assert(before[q] == g[q]);
                    } else {
                        let j = choose|j: int| 0 <= j < front.len() && front[j] == q;
                        assert(settled(g[front[j]]) || !before[front[j]].contains(d));
                        assert(after[q] == before[q]);
                    }
                }
            }
        }
    }
}

/// Propagating the unit on top of the stack keeps what holds all the way
/// through a propagation.
proof fn lemma_step(g: Map<(int, int), Set<int>>, stack: Seq<(int, int, int)>)
    requires
        in_step(g, stack),
        stack.len() > 0,
    ensures
        in_step(
            scan(g, sweep(stack.last().0, stack.last().1), stack.last().2),
            stack.drop_last() + found(g, sweep(stack.last().0, stack.last().1), stack.last().2),
        ),
{
    let u = stack.last();
    let origin = (u.0, u.1);
    let d = u.2;
    let path = sweep(u.0, u.1);
    let after = scan(g, path, d);
    let fresh = found(g, path, d);
    let kept = stack.drop_last();
    let next = kept + fresh;
    assert(unit_ok(u));
    lemma_sweep_in_grid(u.0, u.1);
    lemma_scan(g, path, d);
    lemma_scan_trace(g, path, d);
    lemma_the_digit_of_single(d);
    assert(g[origin] == set![d]);

    assert(units_ok(next)) by {
        assert forall|i: int| 0 <= i < next.len() implies unit_ok(#[trigger] next[i]) by {
            if i < kept.len() {
                assert(next[i] == stack[i]);
            } else {
                assert(next[i] == fresh[i - kept.len()]);
            }
        }
    }
    assert forall|i: int| 0 <= i < next.len() implies after[((#[trigger] next[i]).0, next[i].1)]
        == set![next[i].2] by {
        if i < kept.len() {
            let w = stack[i];
            assert(next[i] == w);
            assert(unit_ok(w));
            lemma_the_digit_of_single(w.2);
            assert(settled(g[(w.0, w.1)]));
            assert(after[(w.0, w.1)] == g[(w.0, w.1)]);
        } else {
            assert(next[i] == fresh[i - kept.len()]);
        }
    }
    assert forall|p: (int, int)| in_grid(p) && settled(#[trigger] after[p]) implies waiting(
        after,
        next,
        p,
    ) || cleared(after, p) by {
        if settled(g[p]) {
            assert(after[p] == g[p]);
            let e = the_digit(g[p]);
            if p == origin {
                assert forall|q: (int, int)| in_grid(q) && #[trigger] peers(p, q) implies settled(
                    after[q],
                ) || !after[q].contains(e) by {
                    lemma_sweep_covers(u.0, u.1, q);
                    let k = choose|k: int| 0 <= k < 171 && #[trigger] path[k] == q;
                    assert(settled(g[path[k]]) || !after[path[k]].contains(d));
                    if settled(g[q]) {
                        assert(after[q] == g[q]);
                    }
                }
            } else if cleared(g, p) {
                assert forall|q: (int, int)| in_grid(q) && #[trigger] peers(p, q) implies settled(
                    after[q],
                ) || !after[q].contains(e) by {
                    assert(after[q].subset_of(g[q]));
                    if settled(g[q]) {
                        assert(after[q] == g[q]);
                    }
                }
            } else {
                assert(waiting(g, stack, p));
                let i = choose|i: int| 0 <= i < stack.len() && #[trigger] stack[i] == (p.0, p.1, e);
                assert(i < kept.len());
                assert(next[i] == (p.0, p.1, the_digit(after[p])));
            }
        } else {
            let unit = (p.0, p.1, the_digit(after[p]));
            assert(fresh.contains(unit));
            let j = choose|j: int| 0 <= j < fresh.len() && fresh[j] == unit;
            assert(next[kept.len() + j] == unit);
        }
    }
}

/// A propagation that starts from a grid and a stack of which the above
/// holds ends in a grid in which no position that holds several digits holds
/// the digit of a settled position around it.
pub proof fn lemma_run_propagated(g: Map<(int, int), Set<int>>, stack: Seq<(int, int, int)>)
    requires
        in_step(g, stack),
    ensures
        propagated(run(g, stack)),
    decreases total(g) + stack.len(),
{
    if stack.len() == 0 {
        assert forall|p: (int, int), q: (int, int)|
            in_grid(p) && in_grid(q) && #[trigger] peers(p, q) && settled(g[p]) && !settled(
                g[q],
            ) implies !g[q].contains(the_digit(g[p])) by {
            assert(cleared(g, p));
        }
    } else {
        let u = stack.last();
        assert(unit_ok(u));
        lemma_sweep_in_grid(u.0, u.1);
        lemma_scan(g, sweep(u.0, u.1), u.2);
        lemma_step(g, stack);
        lemma_run_propagated(
            scan(g, sweep(u.0, u.1), u.2),
            stack.drop_last() + found(g, sweep(u.0, u.1), u.2),
        );
    }
}

/// A move on a grid in which no position that holds several digits holds the
/// digit of a settled position around it leaves such a grid, whatever the
/// digit played.
pub proof fn lemma_play_propagated(g: Map<(int, int), Set<int>>, c: int, r: int, d: int)
    requires
        grid_wf(g),
        in_grid((c, r)),
        0 <= d < 9,
        propagated(g),
    ensures
        propagated(play(g, c, r, d)),
{
    let origin = (c, r);
    let fixed = g.insert(origin, set![d]);
    let stack = seq![(c, r, d)];
    lemma_fixed(g, c, r, d);
    assert forall|p: (int, int)| in_grid(p) && settled(#[trigger] fixed[p]) implies waiting(
        fixed,
        stack,
        p,
    ) || cleared(fixed, p) by {
        if p == origin {
            assert(stack[0] == (p.0, p.1, the_digit(fixed[p])));
        } else {
            assert forall|q: (int, int)| in_grid(q) && #[trigger] peers(p, q) implies settled(
                fixed[q],
            ) || !fixed[q].contains(the_digit(fixed[p])) by {
                if q != origin {
                    assert(fixed[q] == g[q]);
                }
            }
        }
    }
    lemma_run_propagated(fixed, stack);
}

/// Where no two settled positions around each other held the same digit, no
/// position that held several digits held the digit of a settled position
/// around it, and the digit played was possible at the position played: two
/// positions around each other that hold the same single digit after the
/// move both held several digits before it, and neither is the position
/// played.
pub proof fn lemma_play_keeps_settled_distinct(
    g: Map<(int, int), Set<int>>,
    c: int,
    r: int,
    d: int,
)
    requires
        grid_wf(g),
        in_grid((c, r)),
        0 <= d < 9,
        distinct(g),
        propagated(g),
        !settled(g[(c, r)]),
        g[(c, r)].contains(d),
    ensures
        forall|p: (int, int), q: (int, int)|
            in_grid(p) && in_grid(q) && #[trigger] peers(p, q) && settled(play(g, c, r, d)[p])
                && play(g, c, r, d)[p] == play(g, c, r, d)[q] ==> !settled(g[p]) && !settled(g[q])
                && p != (c, r) && q != (c, r),
{
    let origin = (c, r);
    let fixed = g.insert(origin, set![d]);
    let stack = seq![(c, r, d)];
    let path = sweep(c, r);
    let swept = scan(fixed, path, d);
    let fresh = found(fixed, path, d);
    let end = play(g, c, r, d);
    lemma_fixed(g, c, r, d);
    lemma_sweep_in_grid(c, r);
    lemma_scan(fixed, path, d);
    lemma_scan_trace(fixed, path, d);
    assert(units_ok(stack));
    assert(stack.drop_last() + fresh =~= fresh);
    assert(end == run(swept, fresh));
    lemma_run(swept, fresh);
    lemma_run(fixed, stack);
    assert(end[origin] == set![d]);

    // A position around the one played that held several digits has lost the
    // digit played.
    assert forall|q: (int, int)| in_grid(q) && peers(origin, q) && !settled(g[q]) implies !end[q].contains(
        d,
    ) by {
        lemma_sweep_covers(c, r, q);
        let k = choose|k: int| 0 <= k < 171 && #[trigger] path[k] == q;
        assert(fixed[q] == g[q]);
        assert(settled(fixed[path[k]]) || !swept[path[k]].contains(d));
        assert(end[q].subset_of(swept[q]));
    }

    assert forall|p: (int, int), q: (int, int)|
        in_grid(p) && in_grid(q) && #[trigger] peers(p, q) && settled(end[p]) && end[p]
            == end[q] implies !settled(g[p]) && !settled(g[q]) && p != origin && q != origin by {
        lemma_clash(g, c, r, d, p, q);
        assert(peers(q, p));
        lemma_clash(g, c, r, d, q, p);
    }
}

/// One half of the above: of two positions around each other that hold the
/// same single digit after the move, the first held several digits before it
/// and is not the position played.
proof fn lemma_clash(
    g: Map<(int, int), Set<int>>,
    c: int,
    r: int,
    d: int,
    p: (int, int),
    q: (int, int),
)
    requires
        grid_wf(g),
        in_grid((c, r)),
        0 <= d < 9,
        distinct(g),
        propagated(g),
        !settled(g[(c, r)]),
        g[(c, r)].contains(d),
        in_grid(p),
        in_grid(q),
        peers(p, q),
        settled(play(g, c, r, d)[p]),
        play(g, c, r, d)[p] == play(g, c, r, d)[q],
        play(g, c, r, d)[(c, r)] == set![d],
        forall|q: (int, int)|
            in_grid(q) && peers((c, r), q) && !settled(g[q]) ==> !play(g, c, r, d)[q].contains(d),
    ensures
        !settled(g[p]),
        p != (c, r),
{
    let origin = (c, r);
    let end = play(g, c, r, d);
    lemma_play(g, c, r, d);
    lemma_the_digit_of_single(d);
    lemma_the_digit(end[p]);
    let e = the_digit(end[p]);
    assert(end[q].contains(e));
    if p == origin {
        assert(e == d);
        if settled(g[q]) {
            assert(end[q] == g[q]);
            assert(peers(q, origin));
            assert(the_digit(g[q]) == d);
        }
    } else if settled(g[p]) {
        assert(end[p] == g[p]);
        if q == origin {
            assert(end[q] == set![d]);
            assert(e == d);
        } else {
            assert(end[q].subset_of(g[q]));
            if settled(g[q]) {
                assert(end[q] == g[q]);
            }
        }
    }
}

/// No position that the move settles ends on the digit of a settled position
/// with which it shares a column, a row or a block.
pub open spec fn settles_apart(g: Map<(int, int), Set<int>>, c: int, r: int, d: int) -> bool {
    forall|p: (int, int), q: (int, int)|
        in_grid(p) && in_grid(q) && #[trigger] peers(p, q) && !settled(g[p]) && settled(
            play(g, c, r, d)[p],
        ) && settled(play(g, c, r, d)[q]) ==> play(g, c, r, d)[p] != play(g, c, r, d)[q]
}

/// A move keeps the digits of settled positions around each other distinct,
/// unless it settles a position on the digit of a settled position around
/// it.
pub proof fn lemma_play_distinct(g: Map<(int, int), Set<int>>, c: int, r: int, d: int)
    requires
        grid_wf(g),
        in_grid((c, r)),
        0 <= d < 9,
        !settled(g[(c, r)]),
        distinct(g),
        settles_apart(g, c, r, d),
    ensures
        distinct(play(g, c, r, d)),
{
    let end = play(g, c, r, d);
    lemma_play(g, c, r, d);
    assert forall|p: (int, int), q: (int, int)|
        in_grid(p) && in_grid(q) && #[trigger] peers(p, q) && settled(end[p]) && settled(
            end[q],
        ) implies end[p] != end[q] by {
        if settled(g[p]) && settled(g[q]) {
            assert(end[p] == g[p]);
            assert(end[q] == g[q]);
        } else if settled(g[p]) {
            assert(peers(q, p));
        }
    }
}

/// Making every digit possible again at one position keeps the digits of
/// settled positions around each other distinct.
pub proof fn lemma_reset_distinct(g: Map<(int, int), Set<int>>, p: (int, int))
    requires
        grid_wf(g),
        in_grid(p),
        distinct(g),
    ensures
        distinct(g.insert(p, all_digits())),
{
    lemma_all_digits();
    let after = g.insert(p, all_digits());
    assert forall|a: (int, int), b: (int, int)|
        in_grid(a) && in_grid(b) && #[trigger] peers(a, b) && settled(after[a]) && settled(
            after[b],
        ) implies after[a] != after[b] by {
        assert(a != p && b != p);
    }
}

} // verus!
