//! The board as text.
use crate::board::Board;
use crate::cell::{lemma_the_digit_of_single, the_digit};
use crate::grid::{grid_wf, in_grid, settled};
use vstd::prelude::*;
use vstd::string::*;

verus! {

/// The character that shows the number `n`, a number from 1 to 9.
pub open spec fn digit_char(n: int) -> char {
    if n == 1 {
        '1'
    } else if n == 2 {
        '2'
    } else if n == 3 {
        '3'
    } else if n == 4 {
        '4'
    } else if n == 5 {
        '5'
    } else if n == 6 {
        '6'
    } else if n == 7 {
        '7'
    } else if n == 8 {
        '8'
    } else if n == 9 {
        '9'
    } else {
        '0'
    }
}

/// The number that the character `ch` shows, and 0 where it shows none from
/// 1 to 9.
pub open spec fn char_digit(ch: char) -> int {
    if ch == '1' {
        1
    } else if ch == '2' {
        2
    } else if ch == '3' {
        3
    } else if ch == '4' {
        4
    } else if ch == '5' {
        5
    } else if ch == '6' {
        6
    } else if ch == '7' {
        7
    } else if ch == '8' {
        8
    } else if ch == '9' {
        9
    } else {
        0
    }
}

/// What is written for one position: a character and a space.
///
/// In a dump of counts the character shows how many digits the position
/// holds. Otherwise it shows the digit of a settled position, counted from
/// 1, and is a dot for a position that holds several digits.
pub open spec fn token(s: Set<int>, counts: bool) -> Seq<char> {
    if counts {
        seq![digit_char(s.len() as int), ' ']
    } else if settled(s) {
        seq![digit_char(the_digit(s) + 1), ' ']
    } else {
        seq!['.', ' ']
    }
}

/// What is written for the first `n` columns of row `r`.
pub open spec fn row_text(g: Map<(int, int), Set<int>>, r: int, n: nat, counts: bool) -> Seq<char>
    decreases n,
{
    if n == 0 {
        Seq::empty()
    } else {
        row_text(g, r, (n - 1) as nat, counts) + token(g[(n - 1, r)], counts)
    }
}

/// What is written for the first `n` rows: each row in full, and the end of
/// a line after it.
pub open spec fn rows_text(g: Map<(int, int), Set<int>>, n: nat, counts: bool) -> Seq<char>
    decreases n,
{
    if n == 0 {
        Seq::empty()
    } else {
        rows_text(g, (n - 1) as nat, counts) + row_text(g, n - 1, 9, counts) + seq!['\n']
    }
}

/// The grid as text: nine lines, each with the nine positions of a row.
pub open spec fn rendered(g: Map<(int, int), Set<int>>) -> Seq<char> {
    rows_text(g, 9, false)
}

/// The counts of the grid as text, laid out as the grid itself.
pub open spec fn rendered_counts(g: Map<(int, int), Set<int>>) -> Seq<char> {
    rows_text(g, 9, true)
}

/// The digit that the text of a grid shows at column `c` and row `r`, counted
/// from 0, and -1 where it shows none.
pub open spec fn digit_read(text: Seq<char>, c: int, r: int) -> int {
    char_digit(text[19 * r + 2 * c]) - 1
}

/// Where in the text of a row the characters of a position stand.
pub proof fn lemma_row_text(g: Map<(int, int), Set<int>>, r: int, n: nat, counts: bool)
    ensures
        row_text(g, r, n, counts).len() == 2 * n,
        forall|c: int|
            0 <= c < n ==> row_text(g, r, n, counts)[2 * c] == #[trigger] token(g[(c, r)], counts)[0]
                && row_text(g, r, n, counts)[2 * c + 1] == ' ',
    decreases n,
{
    if n > 0 {
        lemma_row_text(g, r, (n - 1) as nat, counts);
        let prev = row_text(g, r, (n - 1) as nat, counts);
        let cur = row_text(g, r, n, counts);
        let last = token(g[(n - 1, r)], counts);
        assert(last.len() == 2 && last[1] == ' ');
        assert forall|c: int| 0 <= c < n implies cur[2 * c] == #[trigger] token(g[(c, r)], counts)[0]
            && cur[2 * c + 1] == ' ' by {
            if c < n - 1 {
                assert(cur[2 * c] == prev[2 * c]);
                assert(cur[2 * c + 1] == prev[2 * c + 1]);
            } else {
                assert(cur[2 * c] == last[0]);
                assert(cur[2 * c + 1] == last[1]);
            }
        }
    }
}

/// Where in the text of a grid the characters of a position stand, and
/// where the lines end.
pub proof fn lemma_rows_text(g: Map<(int, int), Set<int>>, n: nat, counts: bool)
    ensures
        rows_text(g, n, counts).len() == 19 * n,
        forall|c: int, r: int|
            0 <= r < n && 0 <= c < 9 ==> rows_text(g, n, counts)[19 * r + 2 * c] == #[trigger] token(
                g[(c, r)],
                counts,
            )[0] && rows_text(g, n, counts)[19 * r + 2 * c + 1] == ' ',
        forall|r: int| 0 <= r < n ==> #[trigger] rows_text(g, n, counts)[19 * r + 18] == '\n',
    decreases n,
{
    if n > 0 {
        let m = (n - 1) as nat;
        lemma_rows_text(g, m, counts);
        lemma_row_text(g, m as int, 9, counts);
        let prev = rows_text(g, m, counts);
        let row = row_text(g, m as int, 9, counts);
        let cur = rows_text(g, n, counts);
        assert(cur == prev + row + seq!['\n']);
        assert forall|c: int, r: int| 0 <= r < n && 0 <= c < 9 implies cur[19 * r + 2 * c]
            == #[trigger] token(g[(c, r)], counts)[0] && cur[19 * r + 2 * c + 1] == ' ' by {
            if r < m {
                assert(cur[19 * r + 2 * c] == prev[19 * r + 2 * c]);
                assert(cur[19 * r + 2 * c + 1] == prev[19 * r + 2 * c + 1]);
            } else {
                assert(cur[19 * r + 2 * c] == row[2 * c]);
                assert(cur[19 * r + 2 * c + 1] == row[2 * c + 1]);
            }
        }
        assert forall|r: int| 0 <= r < n implies #[trigger] cur[19 * r + 18] == '\n' by {
            if r < m {
                assert(cur[19 * r + 18] == prev[19 * r + 18]);
            }
        }
    }
}

/// The text of a grid has nine lines of nineteen characters, and reading it
/// back gives the grid: where a position is settled, the character at its
/// place shows its digit, counted from 1; where it is not, a dot stands
/// there.
pub proof fn lemma_render_reads_back(g: Map<(int, int), Set<int>>, c: int, r: int)
    requires
        grid_wf(g),
        in_grid((c, r)),
    ensures
        rendered(g).len() == 171,
        settled(g[(c, r)]) ==> digit_read(rendered(g), c, r) == the_digit(g[(c, r)]),
        !settled(g[(c, r)]) ==> rendered(g)[19 * r + 2 * c] == '.' && digit_read(rendered(g), c, r)
            == -1,
        rendered(g)[19 * r + 2 * c + 1] == ' ',
        rendered(g)[19 * r + 18] == '\n',
{
    lemma_rows_text(g, 9, false);
    let s = g[(c, r)];
    assert(rendered(g)[19 * r + 2 * c] == token(s, false)[0]);
    if settled(s) {
        crate::cell::lemma_the_digit(s);
        assert(crate::cell::candidates_wf(s));
        assert(crate::cell::all_digits().contains(the_digit(s)));
    }
}

/// The two characters written for the number `n`.
fn digit_token(n: u8) -> (s: &'static str)
    requires
        1 <= n <= 9,
    ensures
        s@ == seq![digit_char(n as int), ' '],
{
    proof {
        reveal_strlit("1 ");
        reveal_strlit("2 ");
        reveal_strlit("3 ");
        reveal_strlit("4 ");
        reveal_strlit("5 ");
        reveal_strlit("6 ");
        reveal_strlit("7 ");
        reveal_strlit("8 ");
        reveal_strlit("9 ");
    }
    let s = if n == 1 {
        "1 "
    } else if n == 2 {
        "2 "
    } else if n == 3 {
        "3 "
    } else if n == 4 {
        "4 "
    } else if n == 5 {
        "5 "
    } else if n == 6 {
        "6 "
    } else if n == 7 {
        "7 "
    } else if n == 8 {
        "8 "
    } else {
        "9 "
    };
    assert(s@ =~= seq![digit_char(n as int), ' ']);
    s
}

impl Board {
    /// The board as text: nine lines, one for each row. A cell that holds a
    /// single digit shows it, counted from 1; any other cell shows a dot.
    /// Each cell is followed by a space.
    pub fn to_string(&self) -> (text: String)
        requires
            self.wf(),
        ensures
            text@ == rendered(self@),
    {
        let mut string: String = String::new();
        let mut y: usize = 0;
        proof {
            reveal_strlit(". ");
            reveal_strlit("\n");
        }
        while y < 9
            invariant
                y <= 9,
                self.wf(),
                ". "@ == seq!['.', ' '],
                "\n"@ == seq!['\n'],
                string@ == rows_text(self@, y as nat, false),
            decreases 9 - y,
        {
            let ghost above = string@;
            let mut x: usize = 0;
            while x < 9
                invariant
                    y < 9,
                    x <= 9,
                    self.wf(),
                    ". "@ == seq!['.', ' '],
                    string@ == above + row_text(self@, y as int, x as nat, false),
                decreases 9 - x,
            {
                let ghost before = string@;
                let ghost row = row_text(self@, y as int, x as nat, false);
                let cell = self.cell(x, y);
                let s = match cell.get_number() {
                    Ok(num) => {
                        proof {
                            lemma_the_digit_of_single(num as int);
                        }
                        digit_token(num + 1)
                    },
                    Err(_err) => ". ",
                };
                assert(s@ == token(self@[(x as int, y as int)], false));
                string.append(s);
                assert(string@ =~= above + (row + s@));
                x += 1;
            }
            string.append("\n");
            assert(string@ =~= above + row_text(self@, y as int, 9, false) + seq!['\n']);
            y += 1;
        }
        string
    }

    /// How many digits each cell holds, as text laid out as the board itself.
    pub fn debug_print_counts(&self) -> (text: String)
        requires
            self.wf(),
        ensures
            text@ == rendered_counts(self@),
    {
        let mut string: String = String::new();
        let mut y: usize = 0;
        proof {
            reveal_strlit("\n");
        }
        while y < 9
            invariant
                y <= 9,
                self.wf(),
                "\n"@ == seq!['\n'],
                string@ == rows_text(self@, y as nat, true),
            decreases 9 - y,
        {
            let ghost above = string@;
            let mut x: usize = 0;
            while x < 9
                invariant
                    y < 9,
                    x <= 9,
                    self.wf(),
                    string@ == above + row_text(self@, y as int, x as nat, true),
                decreases 9 - x,
            {
                let ghost row = row_text(self@, y as int, x as nat, true);
                let s = digit_token(self.cell(x, y).get_count());
                string.append(s);
                assert(string@ =~= above + (row + s@));
                x += 1;
            }
            string.append("\n");
            assert(string@ =~= above + row_text(self@, y as int, 9, true) + seq!['\n']);
            y += 1;
        }
        string
    }
}

} // verus!
