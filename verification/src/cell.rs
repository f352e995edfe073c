//! One cell of the grid and the sets of digits that model it.
use crate::error::Error;
use vstd::prelude::*;
use vstd::set_lib::*;

verus! {

/// The digits a cell can hold: `0` to `8`.
pub open spec fn all_digits() -> Set<int> {
    Set::new(|d: int| 0 <= d < 9)
}

/// The digits of `s` that are smaller than `n`.
pub open spec fn below(s: Set<int>, n: int) -> Set<int> {
    Set::new(|d: int| s.contains(d) && d < n)
}

/// The digits of `s` that are smaller than `n`, in ascending order.
pub open spec fn digits_below(s: Set<int>, n: nat) -> Seq<u8>
    decreases n,
{
    if n == 0 {
        Seq::empty()
    } else if s.contains(n - 1) {
        digits_below(s, (n - 1) as nat).push((n - 1) as u8)
    } else {
        digits_below(s, (n - 1) as nat)
    }
}

/// What a candidate set of a cell has to be: some of the nine digits, at
/// least one of them.
pub open spec fn candidates_wf(s: Set<int>) -> bool {
    &&& s.finite()
    &&& s.len() >= 1
    &&& s.subset_of(all_digits())
}

/// The single digit of a set that holds exactly one.
pub open spec fn the_digit(s: Set<int>) -> int {
    s.choose()
}

/// The nine digits are a finite set of nine elements.
pub proof fn lemma_all_digits()
    ensures
        all_digits().finite(),
        all_digits().len() == 9,
{
    lemma_int_range(0, 9);
    assert(all_digits() =~= set_int_range(0, 9));
}

/// A set of digits is finite and has at most nine elements.
pub proof fn lemma_digit_set(s: Set<int>)
    requires
        s.subset_of(all_digits()),
    ensures
        s.finite(),
        s.len() <= 9,
{
    lemma_all_digits();
    lemma_len_subset(s, all_digits());
}

/// A set with one element is the set of its digit.
pub proof fn lemma_the_digit(s: Set<int>)
    requires
        s.finite(),
        s.len() == 1,
    ensures
        s == set![the_digit(s)],
        s.contains(the_digit(s)),
{
    broadcast use vstd::set::group_set_axioms;

    Set::lemma_is_singleton(s);
    let d = s.choose();
    assert(s.contains(d));
    assert(s =~= set![d]);
}

/// The digit of the set that holds only `d` is `d`.
pub proof fn lemma_the_digit_of_single(d: int)
    ensures
        set![d].finite(),
        set![d].len() == 1,
        the_digit(set![d]) == d,
{
    broadcast use vstd::set::group_set_axioms;

    let s = set![d];
    assert(s.contains(d));
    assert(s.contains(s.choose()));
}

/// Counting the digits of a set one by one: what the digit `n` adds to the
/// digits below it.
pub proof fn lemma_below_step(s: Set<int>, n: int)
    requires
        0 <= n,
        s.subset_of(all_digits()),
    ensures
        below(s, n).finite(),
        below(s, 0).len() == 0,
        s.contains(n) ==> below(s, n + 1) == below(s, n).insert(n) && below(s, n + 1).len()
            == below(s, n).len() + 1,
        !s.contains(n) ==> below(s, n + 1) == below(s, n),
        n >= 9 ==> below(s, n) == s,
{
    broadcast use vstd::set::group_set_axioms;

    lemma_digit_set(s);
    lemma_len_subset(below(s, n), s);
    assert(below(s, 0) =~= Set::empty());
    if s.contains(n) {
        assert(below(s, n + 1) =~= below(s, n).insert(n));
        assert(!below(s, n).contains(n));
    } else {
        assert(below(s, n + 1) =~= below(s, n));
    }
    if n >= 9 {
        assert(below(s, n) =~= s);
    }
}

/// The ascending sequence of the digits of a set lists each digit of the set
/// once, and nothing else.
pub proof fn lemma_digits_below(s: Set<int>, n: nat)
    requires
        n <= 9,
        s.subset_of(all_digits()),
    ensures
        digits_below(s, n).len() == below(s, n as int).len(),
        forall|i: int| 0 <= i < digits_below(s, n).len() ==> s.contains(#[trigger] digits_below(s, n)[i] as int) && digits_below(s, n)[i] < n,
        forall|i: int, j: int| 0 <= i < j < digits_below(s, n).len() ==> digits_below(s, n)[i] < digits_below(s, n)[j],
        forall|d: int| s.contains(d) && d < n ==> digits_below(s, n).contains(d as u8),
    decreases n,
{
    if n == 0 {
        lemma_below_step(s, 0);
    } else {
        let m = (n - 1) as nat;
        lemma_digits_below(s, m);
        lemma_below_step(s, m as int);
        let prev = digits_below(s, m);
        let cur = digits_below(s, n);
        if s.contains(m as int) {
            assert(cur == prev.push(m as u8));
            assert forall|d: int| s.contains(d) && d < n implies cur.contains(d as u8) by {
                if d == m {
                    assert(cur[prev.len() as int] == d as u8);
                } else {
                    assert(prev.contains(d as u8));
                    let i = choose|i: int| 0 <= i < prev.len() && prev[i] == d as u8;
                    assert(cur[i] == d as u8);
                }
            }
        } else {
            assert forall|d: int| s.contains(d) && d < n implies cur.contains(d as u8) by {
                assert(prev.contains(d as u8));
            }
        }
    }
}

/// One position of the grid: the digits that are still possible there.
///
/// The view of a cell is its candidate set, a set of digits from `0` to `8`.
#[derive(Debug, Clone, Copy, PartialEq, Eq, Structural)]
pub struct Cell {
    bitmap: u16,
}

/// Whether bit `d` of `b` is set.
spec fn bit(b: u16, d: u16) -> bool {
    (b >> d) & 1 == 1
}

impl View for Cell {
    type V = Set<int>;

    closed spec fn view(&self) -> Set<int> {
        Set::new(|d: int| 0 <= d < 9 && bit(self.bitmap, d as u16))
    }
}

impl Cell {
    /// The representation is valid: the cell holds at least one digit and
    /// nothing but digits.
    pub closed spec fn wf(self) -> bool {
        self.bitmap != 0 && self.bitmap <= 0x1ff
    }

    /// The candidate set of a valid cell is a set of digits that is not empty.
    pub proof fn lemma_wf(self)
        requires
            self.wf(),
        ensures
            candidates_wf(self@),
    {
        broadcast use vstd::set::group_set_axioms;

        let b = self.bitmap;
        assert(self@.subset_of(all_digits()));
        lemma_digit_set(self@);
        assert(b != 0 && b <= 0x1ff ==> bit(b, 0) || bit(b, 1) || bit(b, 2) || bit(b, 3) || bit(b, 4)
            || bit(b, 5) || bit(b, 6) || bit(b, 7) || bit(b, 8)) by (bit_vector);
        let d: int = if bit(b, 0) { 0 } else if bit(b, 1) { 1 } else if bit(b, 2) { 2 } else if bit(b, 3) { 3 } else if bit(b, 4) { 4 } else if bit(b, 5) { 5 } else if bit(b, 6) { 6 } else if bit(b, 7) { 7 } else { 8 };
        assert(self@.contains(d));
        if self@.len() == 0 {
            self@.lemma_len0_is_empty();
        }
    }

    /// The digits of a valid cell, listed in ascending order, are as many as
    /// the cell holds, and they are between one and nine.
    pub proof fn lemma_cardinality(self)
        requires
            self.wf(),
        ensures
            digits_below(self@, 9).len() == self@.len(),
            1 <= self@.len() <= 9,
    {
        self.lemma_wf();
        lemma_digit_set(self@);
        lemma_digits_below(self@, 9);
        lemma_below_step(self@, 9);
    }

    /// A cell in which every digit is possible.
    pub fn new() -> (cell: Cell)
        ensures
            cell.wf(),
            cell@ == all_digits(),
    {
        let cell = Cell { bitmap: 0x1ff };
        proof {
            assert(forall|d: u16| d < 9 ==> bit(0x1ff, d)) by (bit_vector);
            assert(cell@ =~= all_digits());
        }
        cell
    }

    /// Whether `num` is among the digits of the cell.
    fn holds(&self, num: u8) -> (b: bool)
        requires
            num < 9,
        ensures
            b == self@.contains(num as int),
    {
        (self.bitmap >> (num as u16)) & 1 == 1
    }

    /// Forces the cell to hold `num` and nothing else.
    ///
    /// A cell that holds a single digit already is left as it is and the call
    /// is refused, also where `num` is that digit.
    pub fn collapse(&mut self, num: u8) -> (res: Result<u8, Error>)
        requires
            old(self).wf(),
            num < 9,
        ensures
            final(self).wf(),
            old(self)@.len() == 1 ==> res == Err::<u8, Error>(Error::AlreadyCollapsed) && *final(self)
                == *old(self),
            old(self)@.len() != 1 ==> res == Ok::<u8, Error>(0) && final(self)@ == set![num as int],
    {
        if self.is_collapsed() {
            return Err(Error::AlreadyCollapsed);
        }
        let mask: u16 = 1u16 << (num as u16);
        proof {
            let n = num as u16;
            assert(n < 9 ==> (1u16 << n) != 0 && (1u16 << n) <= 0x1ff) by (bit_vector);
            assert(forall|d: u16| n < 9 && d < 9 ==> (bit(1u16 << n, d) <==> d == n)) by (bit_vector);
        }
        self.bitmap = mask;
        assert(self@ =~= set![num as int]);
        Ok(0)
    }

    /// Takes `num` out of the digits of the cell, and says whether that left
    /// the cell with a single digit.
    ///
    /// The last digit of a cell is never taken: the call is refused and the
    /// cell is left as it is. Taking a digit that the cell does not hold
    /// changes nothing and is no error.
    pub fn reduce(&mut self, num: u8) -> (res: Result<bool, Error>)
        requires
            old(self).wf(),
            num < 9,
        ensures
            final(self).wf(),
            old(self)@ == set![num as int] ==> res == Err::<bool, Error>(Error::Contradiction)
                && *final(self) == *old(self),
            old(self)@ != set![num as int] ==> res == Ok::<bool, Error>(
                old(self)@.len() != 1 && final(self)@.len() == 1,
            ) && final(self)@ == old(self)@.remove(num as int),
            !old(self)@.contains(num as int) ==> res is Ok && *final(self) == *old(self),
    {
        let was_collapsed = self.is_collapsed();
        let before: u16 = self.bitmap;
        let mask: u16 = 1u16 << (num as u16);
        let after: u16 = (before | mask) ^ mask;
        proof {
            let n = num as u16;
            assert(n < 9 && before <= 0x1ff ==> ((before | (1u16 << n)) ^ (1u16 << n)) <= 0x1ff)
                by (bit_vector);
            assert(forall|d: u16|
                n < 9 && d < 9 ==> (bit((before | (1u16 << n)) ^ (1u16 << n), d) <==> bit(before, d)
                    && d != n)) by (bit_vector);
            assert(n < 9 && !bit(before, n) ==> ((before | (1u16 << n)) ^ (1u16 << n)) == before)
                by (bit_vector);
            assert(forall|d: u16| d < 9 ==> !bit(0, d)) by (bit_vector);
            let reduced = Cell { bitmap: after };
            assert(reduced@ =~= old(self)@.remove(num as int));
            if after == 0 {
                assert(reduced@ =~= Set::empty());
                assert(old(self)@ =~= set![num as int]);
            } else {
                assert(reduced.wf());
                reduced.lemma_wf();
                assert(!reduced@.contains(num as int));
                assert(old(self)@ != set![num as int]);
            }
        }
        if after == 0 {
            return Err(Error::Contradiction);
        }
        self.bitmap = after;
        let now_collapsed = self.is_collapsed();
        Ok(!was_collapsed && now_collapsed)
    }

    /// Makes every digit possible again, whatever the cell held.
    pub fn reset(&mut self)
        ensures
            final(self).wf(),
            final(self)@ == all_digits(),
    {
        *self = Cell::new();
    }

    /// The digits of the cell, in ascending order.
    pub fn get_possible_numbers(&self) -> (nums: Vec<u8>)
        requires
            self.wf(),
        ensures
            nums@ == digits_below(self@, 9),
            nums@.len() == self@.len(),
    {
        let mut nums: Vec<u8> = Vec::with_capacity(self.get_count() as usize);
        let mut x: u8 = 0;
        while x < 9
            invariant
                x <= 9,
                nums@ == digits_below(self@, x as nat),
            decreases 9 - x,
        {
            if self.holds(x) {
                nums.push(x);
            }
            x += 1;
        }
        proof {
            self.lemma_wf();
            lemma_digits_below(self@, 9);
            lemma_below_step(self@, 9);
        }
        nums
    }

    /// The digit of a cell that holds exactly one.
    pub fn get_number(&self) -> (res: Result<u8, Error>)
        requires
            self.wf(),
        ensures
            self@.len() == 1 ==> res is Ok && res->Ok_0 < 9 && self@ == set![res->Ok_0 as int],
            self@.len() != 1 ==> res == Err::<u8, Error>(Error::NotCollapsed),
    {
        if !self.is_collapsed() {
            return Err(Error::NotCollapsed);
        }
        let mut x: u8 = 0;
        while x < 9
            invariant
                x <= 9,
                self.wf(),
                self@.len() == 1,
                below(self@, x as int) == Set::<int>::empty(),
            decreases 9 - x,
        {
            proof {
                self.lemma_wf();
                lemma_below_step(self@, x as int);
            }
            if self.holds(x) {
                proof {
                    lemma_the_digit(self@);
                }
                return Ok(x);
            }
            x += 1;
        }
        proof {
            self.lemma_wf();
            lemma_below_step(self@, 9);
        }
        Err(Error::NotCollapsed)
    }

    /// How many digits the cell holds.
    pub fn get_count(&self) -> (count: u8)
        requires
            self.wf(),
        ensures
            count == self@.len(),
            1 <= count <= 9,
    {
        let mut count: u8 = 0;
        let mut x: u8 = 0;
        proof {
            self.lemma_wf();
            lemma_below_step(self@, 0);
        }
        while x < 9
            invariant
                x <= 9,
                self.wf(),
                count == below(self@, x as int).len(),
                count <= x,
            decreases 9 - x,
        {
            proof {
                self.lemma_wf();
                lemma_below_step(self@, x as int);
            }
            if self.holds(x) {
                count += 1;
            }
            x += 1;
        }
        proof {
            self.lemma_wf();
            lemma_below_step(self@, 9);
        }
        count
    }

    /// Whether the cell holds exactly one digit.
    pub fn is_collapsed(&self) -> (b: bool)
        requires
            self.wf(),
        ensures
            b == (self@.len() == 1),
    {
        self.get_count() == 1
    }
}

} // verus!
