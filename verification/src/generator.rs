//! Growing a grid by moves drawn at random, and emptying cells of it again.
use crate::board::{cells_of, Board};
use crate::cell::all_digits;
use crate::consistency::{lemma_play_propagated, propagated};
use crate::grid::{
    finished, in_grid, is_least, lemma_open_count, lemma_play, lemma_play_settles,
    lemma_positions, lemma_reset_opens, lemma_settled_upto, open_cells, open_count, play,
    positions, settled, settled_cells,
};
use crate::random::{choose_cell, thread_rng};
use vstd::prelude::*;
use vstd::set_lib::lemma_len_subset;

verus! {

/// Plays one move drawn at random: a digit that is possible at one of the
/// cells that hold several digits and no more than any other such cell.
/// Gives the move played, and nothing where the board is finished, which is
/// then left as it is.
pub fn fill_step(board: &mut Board) -> (step: Option<(usize, usize, u8)>)
    requires
        old(board).wf(),
    ensures
        final(board).wf(),
        step is None <==> finished(old(board)@),
        step is None ==> *final(board) == *old(board),
        step matches Some(s) ==> {
            &&& s.0 < 9 && s.1 < 9 && s.2 < 9
            &&& is_least(old(board)@, (s.0 as int, s.1 as int))
            &&& old(board)@[(s.0 as int, s.1 as int)].contains(s.2 as int)
            &&& final(board)@ == play(old(board)@, s.0 as int, s.1 as int, s.2 as int)
        },
{
    if board.is_finished() {
        return None;
    }
    let cell = board.select_random_cell();
    let step = board.select_random_number(cell);
    match board.play_move(step.0, step.1, step.2) {
        Ok(_) => Some(step),
        Err(_) => None,
    }
}

/// Plays moves drawn at random until every cell holds a single digit.
///
/// Each cell ends with one of the digits that it held, and a cell that held
/// a single digit keeps it.
pub fn fill(board: &mut Board)
    requires
        old(board).wf(),
    ensures
        final(board).wf(),
        finished(final(board)@),
        forall|p: (int, int)| in_grid(p) ==> (#[trigger] final(board)@[p]).subset_of(old(board)@[p]),
        propagated(old(board)@) ==> propagated(final(board)@),
{
    let mut i: u8 = 0;
    proof {
        lemma_open_count(board@);
    }
    while i < 81
        invariant
            i <= 81,
            board.wf(),
            open_count(board@) + i <= 81,
            forall|p: (int, int)| in_grid(p) ==> (#[trigger] board@[p]).subset_of(old(board)@[p]),
            propagated(old(board)@) ==> propagated(board@),
        decreases 81 - i,
    {
        let ghost before = board@;
        proof {
            board.lemma_wf();
        }
        match fill_step(board) {
            Some(step) => {
                proof {
                    let c = step.0 as int;
                    let r = step.1 as int;
                    let d = step.2 as int;
                    lemma_play(before, c, r, d);
                    lemma_play_settles(before, c, r, d);
                    if propagated(before) {
                        lemma_play_propagated(before, c, r, d);
                    }
                    assert forall|p: (int, int)| in_grid(p) implies (#[trigger] board@[p]).subset_of(
                        old(board)@[p],
                    ) by {
                        if p == (c, r) {
                            assert(board@[p] == set![d]);
                        } else {
                            assert(board@[p].subset_of(before[p]));
                        }
                        assert(before[p].subset_of(old(board)@[p]));
                    }
                }
            },
            None => {
                return ;
            },
        }
        i += 1;
    }
    proof {
        lemma_open_count(board@);
    }
}

/// Makes every digit possible again in one of the cells that hold a single
/// digit, drawn at random. Gives the cell, and nothing where no cell holds a
/// single digit: the board is then left as it is.
pub fn carve_step(board: &mut Board) -> (cell: Option<(usize, usize)>)
    requires
        old(board).wf(),
    ensures
        final(board).wf(),
        cell is None <==> open_count(old(board)@) == 81,
        cell is None ==> *final(board) == *old(board),
        cell matches Some(p) ==> {
            &&& p.0 < 9 && p.1 < 9
            &&& settled(old(board)@[(p.0 as int, p.1 as int)])
            &&& final(board)@ == old(board)@.insert((p.0 as int, p.1 as int), all_digits())
            &&& open_count(final(board)@) == open_count(old(board)@) + 1
        },
{
    let collapsed = board.get_collapsed_vec();
    let mut rng = thread_rng();
    let choice = choose_cell(&collapsed, &mut rng);
    proof {
        let g = board@;
        let cells = settled_cells(g);
        lemma_settled_upto(g, 81);
        lemma_open_count(g);
        lemma_positions();
        if cells.len() == 0 {
            assert(open_cells(g) =~= positions()) by {
                assert forall|p: (int, int)| in_grid(p) implies !settled(#[trigger] g[p]) by {
                    if settled(g[p]) {
                        assert(cells.contains(p));
                    }
                }
            }
        } else {
            let p = cells[0];
            assert(!open_cells(g).contains(p));
            assert(open_cells(g).subset_of(positions().remove(p)));
            lemma_len_subset(open_cells(g), positions().remove(p));
        }
    }
    match choice {
        Some(cell) => {
            proof {
                let i = choose|i: int| 0 <= i < collapsed.len() && collapsed[i] == cell;
                assert(cells_of(collapsed@)[i] == (cell.0 as int, cell.1 as int));
                lemma_settled_upto(board@, 81);
                lemma_reset_opens(board@, (cell.0 as int, cell.1 as int));
            }
            board.reset_cell(&cell);
            Some(cell)
        },
        None => None,
    }
}

/// Fills the board with moves drawn at random, then makes every digit
/// possible again in `difficulty` cells drawn at random.
///
/// `difficulty` cells are left without a digit of their own. Every other
/// cell holds a single digit, one of those that it held before.
pub fn generate(board: &mut Board, difficulty: u8)
    requires
        old(board).wf(),
        difficulty <= 81,
    ensures
        final(board).wf(),
        open_count(final(board)@) == difficulty,
        forall|p: (int, int)|
            in_grid(p) ==> #[trigger] final(board)@[p] == all_digits() || (settled(final(board)@[p])
                && final(board)@[p].subset_of(old(board)@[p])),
{
    fill(board);
    let ghost filled = board@;
    proof {
        lemma_open_count(filled);
    }
    let mut i: u8 = 0;
    while i < difficulty
        invariant
            i <= difficulty <= 81,
            board.wf(),
            open_count(board@) == i,
            forall|p: (int, int)|
                in_grid(p) ==> #[trigger] board@[p] == all_digits() || board@[p] == filled[p],
        decreases difficulty - i,
    {
        match carve_step(board) {
            Some(_) => {},
            None => {},
        }
        i += 1;
    }
}

} // verus!
