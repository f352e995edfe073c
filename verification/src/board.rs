//! The board: its 81 cells, the moves on it and the questions it answers.
use crate::cell::{
    all_digits, digits_below, lemma_all_digits, lemma_digits_below, the_digit, Cell,
};
use crate::consistency::{distinct, lemma_play_propagated, lemma_reset_distinct, propagated};
use crate::error::Error;
use crate::grid::{
    collapses, finished, found, grid_wf, in_grid, is_least, least_cells, least_upto,
    lemma_least_upto, lemma_play, lemma_run, lemma_run_split, lemma_scan, lemma_sweep_in_grid,
    play, positions, reading, run, scan, settled, settled_cells, settled_upto, sweep, total,
    unit_ok, units_ok, visit,
};
use crate::random::{gen_below, thread_rng};
use vstd::prelude::*;

verus! {

/// A unit of propagation, a column, a row and a digit, as the model has it.
pub open spec fn unit_of(u: (usize, usize, u8)) -> (int, int, int) {
    (u.0 as int, u.1 as int, u.2 as int)
}

/// A sequence of units of propagation as the model has it.
pub open spec fn units_of(v: Seq<(usize, usize, u8)>) -> Seq<(int, int, int)> {
    v.map_values(|u: (usize, usize, u8)| unit_of(u))
}

/// A sequence of positions, each a column and a row, as the model has it.
pub open spec fn cells_of(v: Seq<(usize, usize)>) -> Seq<(int, int)> {
    v.map_values(|p: (usize, usize)| (p.0 as int, p.1 as int))
}

/// The positions among the first `n` in reading order that are not settled
/// and hold `m` digits, in that order.
spec fn open_with(g: Map<(int, int), Set<int>>, m: int, n: nat) -> Seq<(int, int)>
    decreases n,
{
    if n == 0 {
        Seq::empty()
    } else if !settled(g[reading(n - 1)]) && g[reading(n - 1)].len() == m {
        open_with(g, m, (n - 1) as nat).push(reading(n - 1))
    } else {
        open_with(g, m, (n - 1) as nat)
    }
}

/// No position holds `m` digits where every position that is not settled
/// holds more.
proof fn lemma_open_with_none(g: Map<(int, int), Set<int>>, m: int, n: nat)
    requires
        forall|i: int| 0 <= i < n && !settled(#[trigger] g[reading(i)]) ==> g[reading(i)].len() > m,
    ensures
        open_with(g, m, n) == Seq::<(int, int)>::empty(),
    decreases n,
{
    if n > 0 {
        lemma_open_with_none(g, m, (n - 1) as nat);
    }
}

/// Where `m` is the fewest digits that a position which is not settled
/// holds, the positions that hold `m` digits are the least ones.
proof fn lemma_open_with_least(g: Map<(int, int), Set<int>>, m: int, n: nat)
    requires
        n <= 81,
        forall|i: int|
            0 <= i < 81 && !settled(#[trigger] g[reading(i)]) ==> g[reading(i)].len() >= m,
        (exists|w: int| 0 <= w < 81 && !settled(#[trigger] g[reading(w)]) && g[reading(w)].len() == m)
            || (forall|i: int| 0 <= i < 81 ==> settled(#[trigger] g[reading(i)])),
    ensures
        open_with(g, m, n) == least_upto(g, n),
    decreases n,
{
    if n > 0 {
        lemma_open_with_least(g, m, (n - 1) as nat);
        let p = reading(n - 1);
        if !settled(g[p]) && g[p].len() == m {
            assert forall|q: (int, int)| in_grid(q) && !settled(#[trigger] g[q]) implies g[p].len()
                <= g[q].len() by {
                assert(reading(q.1 * 9 + q.0) == q);
            }
            assert(is_least(g, p));
        }
        if is_least(g, p) {
            assert(!settled(g[reading(n - 1)]));
            let w = choose|w: int|
                0 <= w < 81 && !settled(#[trigger] g[reading(w)]) && g[reading(w)].len() == m;
            assert(in_grid(reading(w)));
        }
    }
}

/// One step of taking a digit from a sequence of positions: what the position
/// at index `k` adds to the positions before it.
proof fn lemma_scan_step(g: Map<(int, int), Set<int>>, ps: Seq<(int, int)>, k: int, d: int)
    requires
        0 <= k < ps.len(),
    ensures
        scan(g, ps.take(k + 1), d) == visit(scan(g, ps.take(k), d), ps[k], d),
        found(g, ps.take(k + 1), d) == if collapses(scan(g, ps.take(k), d), ps[k], d) {
            found(g, ps.take(k), d).push(
                (ps[k].0, ps[k].1, the_digit(scan(g, ps.take(k), d)[ps[k]].remove(d))),
            )
        } else {
            found(g, ps.take(k), d)
        },
{
    assert(ps.take(k + 1).drop_last() =~= ps.take(k));
    assert(ps.take(k + 1).last() == ps[k]);
}

/// Which positions the steps of a sweep look at.
proof fn lemma_sweep_index(c: int, r: int)
    ensures
        forall|y: int, x: int|
            0 <= y < 9 && 0 <= x < 9 ==> #[trigger] sweep(c, r)[18 * y + 2 * x] == (c, y),
        forall|y: int, x: int|
            0 <= y < 9 && 0 <= x < 9 ==> #[trigger] sweep(c, r)[18 * y + 2 * x + 1] == (x, r),
        forall|j: int, i: int|
            0 <= j < 3 && 0 <= i < 3 ==> #[trigger] sweep(c, r)[162 + 3 * j + i] == (
                c / 3 * 3 + i,
                r / 3 * 3 + j,
            ),
{
}

/// The 81 cells of a grid, by column and row.
///
/// The view of a board maps each position, a column and a row, to the
/// candidate set of its cell.
#[derive(Debug, Clone, Copy, PartialEq, Eq)]
pub struct Board {
    matrix: [[Cell; 9]; 9],
}

impl View for Board {
    type V = Map<(int, int), Set<int>>;

    closed spec fn view(&self) -> Map<(int, int), Set<int>> {
        Map::new(|p: (int, int)| in_grid(p), |p: (int, int)| self.matrix[p.0][p.1]@)
    }
}

impl Board {
    /// Every cell of the board is valid.
    pub closed spec fn wf(self) -> bool {
        forall|c: int, r: int| 0 <= c < 9 && 0 <= r < 9 ==> (#[trigger] self.matrix[c][r]).wf()
    }

    /// The model of a valid board is a grid.
    pub proof fn lemma_wf(self)
        requires
            self.wf(),
        ensures
            grid_wf(self@),
    {
        assert(self@.dom() =~= positions());
        assert forall|p: (int, int)| in_grid(p) implies crate::cell::candidates_wf(
            #[trigger] self@[p],
        ) by {
            self.matrix[p.0][p.1].lemma_wf();
        }
    }

    /// A board on which every digit is possible everywhere.
    pub fn new() -> (board: Board)
        ensures
            board.wf(),
            forall|p: (int, int)| in_grid(p) ==> #[trigger] board@[p] == all_digits(),
            !finished(board@),
            distinct(board@),
            propagated(board@),
    {
        let cell = Cell::new();
        let column = [cell;9];
        let board = Board { matrix: [column;9] };
        proof {
            lemma_all_digits();
            assert(in_grid((0, 0)) && !settled(board@[(0, 0)]));
        }
        board
    }

    /// The cell at column `x` and row `y`.
    pub fn cell(&self, x: usize, y: usize) -> (cell: Cell)
        requires
            self.wf(),
            x < 9,
            y < 9,
        ensures
            cell.wf(),
            cell@ == self@[(x as int, y as int)],
    {
        self.matrix[x][y]
    }

    /// Takes `num` from the cell at column `x` and row `y`, unless the cell
    /// holds a single digit. A cell that this leaves with a single digit goes
    /// on `queue`, with that digit.
    fn reduce_at(&mut self, x: usize, y: usize, num: u8, queue: &mut Vec<(usize, usize, u8)>) -> (res:
        Result<u8, Error>)
        requires
            old(self).wf(),
            x < 9,
            y < 9,
            num < 9,
        ensures
            final(self).wf(),
            res is Ok,
            final(self)@ == visit(old(self)@, (x as int, y as int), num as int),
            units_of(final(queue)@) == if collapses(
                old(self)@,
                (x as int, y as int),
                num as int,
            ) {
                units_of(old(queue)@).push(
                    (
                        x as int,
                        y as int,
                        the_digit(old(self)@[(x as int, y as int)].remove(num as int)),
                    ),
                )
            } else {
                units_of(old(queue)@)
            },
    {
        let ghost p = (x as int, y as int);
        proof {
            old(self).lemma_wf();
            crate::cell::lemma_the_digit_of_single(num as int);
        }
        if !self.matrix[x][y].is_collapsed() {
            match self.matrix[x][y].reduce(num) {
                Ok(colled) => {
                    assert(self@ =~= old(self)@.insert(p, old(self)@[p].remove(num as int)));
                    if colled {
                        match self.matrix[x][y].get_number() {
                            Ok(digit) => {
                                proof {
                                    crate::cell::lemma_the_digit_of_single(digit as int);
                                    assert(units_of(old(queue)@.push((x, y, digit))) =~= units_of(
                                        old(queue)@,
                                    ).push((x as int, y as int, digit as int)));
                                }
                                queue.push((x, y, digit));
                            },
                            Err(e) => {
                                return Err(e);
                            },
                        }
                    }
                },
                Err(e) => {
                    return Err(e);
                },
            }
        }
        Ok(0)
    }

    /// The first column and the first row of the block of column `x` and row
    /// `y`.
    fn get_subsquare(&self, x: usize, y: usize) -> (origin: (usize, usize))
        requires
            x < 9,
            y < 9,
        ensures
            origin.0 == x / 3 * 3,
            origin.1 == y / 3 * 3,
            origin.0 + 3 <= 9,
            origin.1 + 3 <= 9,
    {
        (x / 3 * 3, y / 3 * 3)
    }

    /// Propagates one unit: takes its digit from the cells of its column, its
    /// row and its block, then propagates each cell that this left with a
    /// single digit, the one found last first.
    ///
    /// Only cells that hold several digits lose one, so no cell is ever left
    /// empty and the propagation always succeeds.
    fn propagate_collapse(&mut self, collapse: (usize, usize, u8)) -> (res: Result<u8, Error>)
        requires
            old(self).wf(),
            unit_ok(unit_of(collapse)),
        ensures
            final(self).wf(),
            res == Ok::<u8, Error>(0),
            final(self)@ == run(old(self)@, seq![unit_of(collapse)]),
        decreases total(old(self)@),
    {
        let ghost start = self@;
        let ghost c = collapse.0 as int;
        let ghost r = collapse.1 as int;
        let ghost d = collapse.2 as int;
        let ghost path = sweep(c, r);
        let mut propagation_queue: Vec<(usize, usize, u8)> = Vec::new();
        proof {
            old(self).lemma_wf();
            lemma_sweep_in_grid(c, r);
            lemma_sweep_index(c, r);
            assert(units_of(propagation_queue@) =~= Seq::empty());
            assert(path.take(0) =~= Seq::empty());
        }

        let mut y: usize = 0;
        while y < 9
            invariant
                y <= 9,
                self.wf(),
                collapse.0 < 9,
                collapse.1 < 9,
                collapse.2 < 9,
                c == collapse.0,
                r == collapse.1,
                d == collapse.2,
                path == sweep(c, r),
                path.len() == 171,
                forall|y: int, x: int|
                    0 <= y < 9 && 0 <= x < 9 ==> #[trigger] path[18 * y + 2 * x] == (c, y),
                forall|y: int, x: int|
                    0 <= y < 9 && 0 <= x < 9 ==> #[trigger] path[18 * y + 2 * x + 1] == (x, r),
                self@ == scan(start, path.take(18 * y), d),
                units_of(propagation_queue@) == found(start, path.take(18 * y), d),
            decreases 9 - y,
        {
            let mut x: usize = 0;
            while x < 9
                invariant
                    y < 9,
                    x <= 9,
                    self.wf(),
                    collapse.0 < 9,
                    collapse.1 < 9,
                    collapse.2 < 9,
                    c == collapse.0,
                    r == collapse.1,
                    d == collapse.2,
                    path == sweep(c, r),
                    path.len() == 171,
                    forall|y: int, x: int|
                        0 <= y < 9 && 0 <= x < 9 ==> #[trigger] path[18 * y + 2 * x] == (c, y),
                    forall|y: int, x: int|
                        0 <= y < 9 && 0 <= x < 9 ==> #[trigger] path[18 * y + 2 * x + 1] == (x, r),
                    self@ == scan(start, path.take(18 * y + 2 * x), d),
                    units_of(propagation_queue@) == found(start, path.take(18 * y + 2 * x), d),
                decreases 9 - x,
            {
                let ghost k = 18 * y + 2 * x;
                proof {
                    lemma_scan_step(start, path, k, d);
                    lemma_scan_step(start, path, k + 1, d);
                    assert(path[k] == (c, y as int));
                    assert(path[k + 1] == (x as int, r));
                }
                match self.reduce_at(collapse.0, y, collapse.2, &mut propagation_queue) {
                    Ok(_) => {},
                    Err(e) => {
                        return Err(e);
                    },
                }
                match self.reduce_at(x, collapse.1, collapse.2, &mut propagation_queue) {
                    Ok(_) => {},
                    Err(e) => {
                        return Err(e);
                    },
                }
                x += 1;
            }
            y += 1;
        }

        let sbsq = self.get_subsquare(collapse.0, collapse.1);

        let mut j: usize = 0;
        while j < 3
            invariant
                j <= 3,
                self.wf(),
                collapse.0 < 9,
                collapse.1 < 9,
                collapse.2 < 9,
                c == collapse.0,
                r == collapse.1,
                d == collapse.2,
                sbsq.0 == c / 3 * 3,
                sbsq.1 == r / 3 * 3,
                sbsq.0 + 3 <= 9,
                sbsq.1 + 3 <= 9,
                path == sweep(c, r),
                path.len() == 171,
                forall|j: int, i: int|
                    0 <= j < 3 && 0 <= i < 3 ==> #[trigger] path[162 + 3 * j + i] == (
                        c / 3 * 3 + i,
                        r / 3 * 3 + j,
                    ),
                self@ == scan(start, path.take(162 + 3 * j), d),
                units_of(propagation_queue@) == found(start, path.take(162 + 3 * j), d),
            decreases 3 - j,
        {
            let mut i: usize = 0;
            while i < 3
                invariant
                    j < 3,
                    i <= 3,
                    self.wf(),
                    collapse.0 < 9,
                    collapse.1 < 9,
                    collapse.2 < 9,
                    c == collapse.0,
                    r == collapse.1,
                    d == collapse.2,
                    sbsq.0 == c / 3 * 3,
                    sbsq.1 == r / 3 * 3,
                    sbsq.0 + 3 <= 9,
                    sbsq.1 + 3 <= 9,
                    path == sweep(c, r),
                    path.len() == 171,
                    forall|j: int, i: int|
                        0 <= j < 3 && 0 <= i < 3 ==> #[trigger] path[162 + 3 * j + i] == (
                            c / 3 * 3 + i,
                            r / 3 * 3 + j,
                        ),
                    self@ == scan(start, path.take(162 + 3 * j + i), d),
                    units_of(propagation_queue@) == found(start, path.take(162 + 3 * j + i), d),
                decreases 3 - i,
            {
                let ghost k = 162 + 3 * j + i;
                proof {
                    lemma_scan_step(start, path, k, d);
                    assert(path[k] == (c / 3 * 3 + i, r / 3 * 3 + j));
                }
                match self.reduce_at(sbsq.0 + i, sbsq.1 + j, collapse.2, &mut propagation_queue) {
                    Ok(_) => {},
                    Err(e) => {
                        return Err(e);
                    },
                }
                i += 1;
            }
            j += 1;
        }

        proof {
            assert(path.take(171) =~= path);
            lemma_scan(start, path, d);
            let first = seq![unit_of(collapse)];
            assert(first.last() == unit_of(collapse));
            assert(first.drop_last() + found(start, path, d) =~= found(start, path, d));
            assert(units_ok(first));
        }

        while propagation_queue.len() > 0
            invariant
                self.wf(),
                start == old(self)@,
                grid_wf(start),
                units_ok(units_of(propagation_queue@)),
                run(start, seq![unit_of(collapse)]) == run(self@, units_of(propagation_queue@)),
                total(self@) + propagation_queue.len() <= total(start),
            decreases propagation_queue.len(),
        {
            let ghost waiting = units_of(propagation_queue@);
            let ghost before = self@;
            let next = propagation_queue.pop().unwrap();
            proof {
                self.lemma_wf();
                let top = seq![unit_of(next)];
                assert(waiting[waiting.len() - 1] == unit_of(next));
                assert(units_of(propagation_queue@) =~= waiting.drop_last());
                assert(waiting =~= waiting.drop_last() + top);
                assert(units_ok(top));
                assert(units_ok(waiting.drop_last())) by {
                    assert forall|i: int| 0 <= i < waiting.drop_last().len() implies unit_ok(
                        #[trigger] waiting.drop_last()[i],
                    ) by {
                        assert(waiting.drop_last()[i] == waiting[i]);
                    }
                }
                lemma_run_split(before, waiting.drop_last(), top);
                lemma_run(before, top);
            }
            match self.propagate_collapse(next) {
                Ok(_) => {},
                Err(e) => {
                    return Err(e);
                },
            }
        }
        proof {
            self.lemma_wf();
            assert(units_of(propagation_queue@) =~= Seq::empty());
        }
        Ok(0)
    }

    /// Fixes digit `num` at column `x` and row `y` and propagates it.
    ///
    /// The move is refused, and the board left as it was, where the cell
    /// holds a single digit already. The board is saved before the move and
    /// put back as a whole should the propagation fail; as the propagation
    /// takes digits only from cells that hold several, it never does, and
    /// every move on a cell that holds several digits is accepted.
    pub fn play_move(&mut self, x: usize, y: usize, num: u8) -> (res: Result<u8, Error>)
        requires
            old(self).wf(),
            x < 9,
            y < 9,
            num < 9,
        ensures
            final(self).wf(),
            settled(old(self)@[(x as int, y as int)]) ==> res == Err::<u8, Error>(
                Error::AlreadyCollapsed,
            ),
            !settled(old(self)@[(x as int, y as int)]) ==> res == Ok::<u8, Error>(0) && final(self)@
                == play(old(self)@, x as int, y as int, num as int),
            res is Err ==> *final(self) == *old(self),
            res is Ok && propagated(old(self)@) ==> propagated(final(self)@),
            total(old(self)@) - total(final(self)@) <= 648,
    {
        proof {
            old(self).lemma_wf();
            lemma_play(old(self)@, x as int, y as int, num as int);
            if propagated(old(self)@) {
                lemma_play_propagated(old(self)@, x as int, y as int, num as int);
            }
        }
        let backup_board = self.matrix;
        match self.matrix[x][y].collapse(num) {
            Ok(_) => {},
            Err(e) => {
                assert(self.matrix =~= old(self).matrix) by {
                    assert forall|c: int| 0 <= c < 9 implies self.matrix[c] == old(
                        self,
                    ).matrix[c] by {
                        assert(self.matrix[c] =~= old(self).matrix[c]);
                    }
                }
                return Err(e);
            },
        }
        assert(self@ =~= old(self)@.insert((x as int, y as int), set![num as int]));
        match self.propagate_collapse((x, y, num)) {
            Ok(_) => Ok(0),
            Err(_) => {
                self.matrix = backup_board;
                Err(Error::Contradiction)
            },
        }
    }

    /// The cells that hold several digits and no more than any other such
    /// cell, the last in reading order first.
    pub fn get_min_space_vec(&self) -> (cells: Vec<(usize, usize)>)
        requires
            self.wf(),
        ensures
            cells_of(cells@) == least_cells(self@),
            cells.len() == 0 <==> finished(self@),
            forall|i: int| 0 <= i < cells.len() ==> (#[trigger] cells[i]).0 < 9 && cells[i].1 < 9,
    {
        let ghost g = self@;
        let mut min_vec: Vec<(usize, usize)> = Vec::with_capacity(81);
        let mut least: u8 = 10;
        proof {
            assert(cells_of(min_vec@) =~= Seq::empty());
        }

        let mut y: usize = 0;
        while y < 9
            invariant
                y <= 9,
                self.wf(),
                g == self@,
                least <= 10,
                cells_of(min_vec@) == open_with(g, least as int, (9 * y) as nat),
                forall|i: int| 0 <= i < min_vec.len() ==> (#[trigger] min_vec[i]).0 < 9 && min_vec[i].1 < 9,
                forall|i: int|
                    0 <= i < 9 * y && !settled(#[trigger] g[reading(i)]) ==> g[reading(i)].len()
                        >= least,
                least < 10 ==> exists|w: int|
                    0 <= w < 9 * y && !settled(#[trigger] g[reading(w)]) && g[reading(w)].len()
                        == least,
                least == 10 ==> forall|i: int| 0 <= i < 9 * y ==> settled(#[trigger] g[reading(i)]),
                (min_vec.len() > 0) == (least < 10),
            decreases 9 - y,
        {
            let mut x: usize = 0;
            while x < 9
                invariant
                    y < 9,
                    x <= 9,
                    self.wf(),
                    g == self@,
                    least <= 10,
                    cells_of(min_vec@) == open_with(g, least as int, (9 * y + x) as nat),
                    forall|i: int| 0 <= i < min_vec.len() ==> (#[trigger] min_vec[i]).0 < 9 && min_vec[i].1 < 9,
                    forall|i: int|
                        0 <= i < 9 * y + x && !settled(#[trigger] g[reading(i)]) ==> g[reading(
                            i,
                        )].len() >= least,
                    least < 10 ==> exists|w: int|
                        0 <= w < 9 * y + x && !settled(#[trigger] g[reading(w)]) && g[reading(
                            w,
                        )].len() == least,
                    least == 10 ==> forall|i: int|
                        0 <= i < 9 * y + x ==> settled(#[trigger] g[reading(i)]),
                    (min_vec.len() > 0) == (least < 10),
                decreases 9 - x,
            {
                let ghost k = 9 * y + x;
                let ghost p = (x as int, y as int);
                assert(reading(k) == p);
                let cell = self.matrix[x][y];
                if !cell.is_collapsed() {
                    let count: u8 = cell.get_count();
                    if count < least {
                        proof {
                            lemma_open_with_none(g, count as int, k as nat);
                            assert(cells_of(seq![(x, y)]) =~= Seq::<(int, int)>::empty().push(p));
                        }
                        min_vec.clear();
                        min_vec.push((x, y));
                        least = count;
                        assert(!settled(g[reading(k)]) && g[reading(k)].len() == least);
                    } else if count == least {
                        proof {
                            assert(cells_of(min_vec@.push((x, y))) =~= cells_of(min_vec@).push(p));
                        }
                        min_vec.push((x, y));
                        assert(!settled(g[reading(k)]) && g[reading(k)].len() == least);
                    }
                }
                x += 1;
            }
            y += 1;
        }

        let ghost found_cells = min_vec@;
        let mut final_vec: Vec<(usize, usize)> = Vec::with_capacity(min_vec.len());
        while min_vec.len() > 0
            invariant
                min_vec.len() <= found_cells.len(),
                min_vec@ == found_cells.take(min_vec.len() as int),
                final_vec.len() == found_cells.len() - min_vec.len(),
                forall|i: int|
                    0 <= i < final_vec.len() ==> #[trigger] final_vec[i] == found_cells[found_cells.len()
                        - 1 - i],
            decreases min_vec.len(),
        {
            let value = min_vec.pop().unwrap();
            final_vec.push((value.0, value.1));
        }
        proof {
            lemma_open_with_least(g, least as int, 81);
            assert(cells_of(final_vec@) =~= cells_of(found_cells).reverse());
            if finished(g) {
                assert forall|i: int| 0 <= i < 81 implies settled(#[trigger] g[reading(i)]) by {
                    assert(in_grid(reading(i)));
                }
            } else {
                let q = choose|q: (int, int)| in_grid(q) && !settled(#[trigger] g[q]);
                assert(reading(q.1 * 9 + q.0) == q);
            }
        }
        final_vec
    }

    /// The cells that hold a single digit, in reading order.
    pub fn get_collapsed_vec(&self) -> (cells: Vec<(usize, usize)>)
        requires
            self.wf(),
        ensures
            cells_of(cells@) == settled_cells(self@),
            forall|i: int| 0 <= i < cells.len() ==> (#[trigger] cells[i]).0 < 9 && cells[i].1 < 9,
    {
        let mut colled_vec: Vec<(usize, usize)> = Vec::with_capacity(81);
        proof {
            assert(cells_of(colled_vec@) =~= Seq::empty());
        }

        let mut y: usize = 0;
        while y < 9
            invariant
                y <= 9,
                self.wf(),
                cells_of(colled_vec@) == settled_upto(self@, (9 * y) as nat),
                forall|i: int|
                    0 <= i < colled_vec.len() ==> (#[trigger] colled_vec[i]).0 < 9 && colled_vec[i].1
                        < 9,
            decreases 9 - y,
        {
            let mut x: usize = 0;
            while x < 9
                invariant
                    y < 9,
                    x <= 9,
                    self.wf(),
                    cells_of(colled_vec@) == settled_upto(self@, (9 * y + x) as nat),
                    forall|i: int|
                        0 <= i < colled_vec.len() ==> (#[trigger] colled_vec[i]).0 < 9
                            && colled_vec[i].1 < 9,
                decreases 9 - x,
            {
                assert(reading(9 * y + x) == (x as int, y as int));
                if self.matrix[x][y].is_collapsed() {
                    proof {
                        assert(cells_of(colled_vec@.push((x, y))) =~= cells_of(colled_vec@).push(
                            (x as int, y as int),
                        ));
                    }
                    colled_vec.push((x, y));
                }
                x += 1;
            }
            y += 1;
        }
        colled_vec
    }

    /// Makes every digit possible again in the cell at the column and row of
    /// `cell`, whatever the cell held.
    pub fn reset_cell(&mut self, cell: &(usize, usize))
        requires
            old(self).wf(),
            cell.0 < 9,
            cell.1 < 9,
        ensures
            final(self).wf(),
            final(self)@ == old(self)@.insert((cell.0 as int, cell.1 as int), all_digits()),
            distinct(old(self)@) ==> distinct(final(self)@),
    {
        proof {
            old(self).lemma_wf();
            if distinct(old(self)@) {
                lemma_reset_distinct(old(self)@, (cell.0 as int, cell.1 as int));
            }
        }
        self.matrix[cell.0][cell.1].reset();
        assert(self@ =~= old(self)@.insert((cell.0 as int, cell.1 as int), all_digits()));
    }

    /// Whether every cell holds a single digit.
    pub fn is_finished(&self) -> (b: bool)
        requires
            self.wf(),
        ensures
            b == finished(self@),
    {
        let mut y: usize = 0;
        while y < 9
            invariant
                y <= 9,
                self.wf(),
                forall|i: int| 0 <= i < 9 * y ==> settled(#[trigger] self@[reading(i)]),
            decreases 9 - y,
        {
            let mut x: usize = 0;
            while x < 9
                invariant
                    y < 9,
                    x <= 9,
                    self.wf(),
                    forall|i: int| 0 <= i < 9 * y + x ==> settled(#[trigger] self@[reading(i)]),
                decreases 9 - x,
            {
                assert(reading(9 * y + x) == (x as int, y as int));
                if !self.matrix[x][y].is_collapsed() {
                    assert(in_grid((x as int, y as int)) && !settled(
                        self@[(x as int, y as int)],
                    ));
                    return false;
                }
                x += 1;
            }
            y += 1;
        }
        proof {
            assert forall|p: (int, int)| in_grid(p) implies settled(#[trigger] self@[p]) by {
                assert(reading(p.1 * 9 + p.0) == p);
            }
        }
        true
    }

    /// The digit that the draw `draw` picks among the digits of the cell at
    /// the column and row of `cell`, with that column and row: the digits are
    /// counted in ascending order, from zero, and a draw beyond the last
    /// digit starts again at the first.
    pub fn select_number(&self, cell: (usize, usize), draw: usize) -> (step: (usize, usize, u8))
        requires
            self.wf(),
            cell.0 < 9,
            cell.1 < 9,
        ensures
            step.0 == cell.0,
            step.1 == cell.1,
            step.2 == digits_below(self@[(cell.0 as int, cell.1 as int)], 9)[draw as int
                % self@[(cell.0 as int, cell.1 as int)].len() as int],
            step.2 < 9,
            self@[(cell.0 as int, cell.1 as int)].contains(step.2 as int),
    {
        let p_vec = self.matrix[cell.0][cell.1].get_possible_numbers();
        proof {
            self.lemma_wf();
            lemma_digits_below(self@[(cell.0 as int, cell.1 as int)], 9);
        }
        (cell.0, cell.1, p_vec[draw % p_vec.len()])
    }

    /// One of the digits of the cell at the column and row of `cell`, drawn
    /// at random, with that column and row.
    pub fn select_random_number(&self, cell: (usize, usize)) -> (step: (usize, usize, u8))
        requires
            self.wf(),
            cell.0 < 9,
            cell.1 < 9,
        ensures
            step.0 == cell.0,
            step.1 == cell.1,
            step.2 < 9,
            self@[(cell.0 as int, cell.1 as int)].contains(step.2 as int),
    {
        let count: u8 = self.matrix[cell.0][cell.1].get_count();
        let mut rng = thread_rng();
        let index: usize = gen_below(&mut rng, count as usize);
        self.select_number(cell, index)
    }

    /// The cell that the draw `draw` picks among the cells that hold several
    /// digits and no more than any other such cell: the cells are counted
    /// from the last in reading order, from zero, and a draw beyond the first
    /// in reading order starts again at the last.
    pub fn select_cell(&self, draw: usize) -> (cell: (usize, usize))
        requires
            self.wf(),
            !finished(self@),
        ensures
            (cell.0 as int, cell.1 as int) == least_cells(self@)[draw as int % least_cells(
                self@,
            ).len() as int],
            cell.0 < 9,
            cell.1 < 9,
            is_least(self@, (cell.0 as int, cell.1 as int)),
    {
        let min_vec = self.get_min_space_vec();
        let index: usize = draw % min_vec.len();
        proof {
            let least = least_upto(self@, 81);
            lemma_least_upto(self@, 81);
            assert(cells_of(min_vec@).len() == min_vec.len());
            assert(least.reverse().len() == least.len());
            assert(least.reverse()[index as int] == least[least.len() - 1 - index]);
        }
        (min_vec[index].0, min_vec[index].1)
    }

    /// One of the cells that hold several digits and no more than any other
    /// such cell, drawn at random.
    pub fn select_random_cell(&self) -> (cell: (usize, usize))
        requires
            self.wf(),
            !finished(self@),
        ensures
            cell.0 < 9,
            cell.1 < 9,
            is_least(self@, (cell.0 as int, cell.1 as int)),
    {
        let count: usize = self.get_min_space_vec().len();
        let mut rng = thread_rng();
        let index: usize = gen_below(&mut rng, count);
        self.select_cell(index)
    }
}

} // verus!
