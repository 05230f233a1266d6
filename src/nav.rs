use crate::filter::compiler::{all_digits, digits_value, unsigned_digits};
use vstd::prelude::*;

verus! {

/// `a - b`, or 0 when `b > a`.
pub open spec fn sat_sub(a: int, b: int) -> int {
    if a >= b { a - b } else { 0 }
}

/// The column that the packing order visits at `step`, for a cursor at `cur`,
/// a previous origin `goal` and a last column `max`: first from the cursor
/// leftwards to the goal, then rightwards from the goal to the last column,
/// then leftwards from the column left of the goal.
pub open spec fn pack_col(goal: int, cur: int, max: int, step: int) -> Option<int> {
    if goal + step <= cur {
        Some(cur - step)
    } else if goal + step <= max {
        Some(goal + step)
    } else if step <= max {
        Some(max - step)
    } else {
        None
    }
}

/// Cursor and viewport on a grid. The cursor is in visible-column space.
#[derive(Clone, Copy, Debug)]
pub struct Nav {
    /// Viewport origin.
    pub o_row: usize,
    pub o_col: usize,
    /// Cursor.
    pub c_row: usize,
    pub c_col: usize,
    /// Last seen maxima.
    pub m_row: usize,
    pub m_col: usize,
}

/// The state of one pass of column packing, driven by `Nav::col_next` and
/// `Nav::col_fit`.
#[derive(Clone, Copy, Debug)]
pub struct ColIter {
    /// The leftmost visible column before this pass.
    pub goal: usize,
    /// How many columns were handed out.
    pub step: usize,
    /// Whether the pass is over.
    pub done: bool,
}

impl Nav {
    pub fn new() -> (r: Nav)
        ensures
            r.o_row == 0 && r.o_col == 0 && r.c_row == 0 && r.c_col == 0,
            r.m_row == 0 && r.m_col == 0,
    {
        Nav { o_row: 0, o_col: 0, c_row: 0, c_col: 0, m_row: 0, m_col: 0 }
    }

    pub fn up(&mut self)
        ensures
            *final(self) == (Nav { c_row: sat_sub(old(self).c_row as int, 1) as usize, ..*old(self) }),
    {
        self.c_row = self.c_row.saturating_sub(1);
    }

    pub fn down(&mut self)
        ensures
            *final(self) == (Nav {
                c_row: if old(self).c_row == usize::MAX { usize::MAX } else { (old(self).c_row + 1) as usize },
                ..*old(self)
            }),
    {
        self.c_row = self.c_row.saturating_add(1);
    }

    pub fn left(&mut self)
        ensures
            *final(self) == (Nav { c_col: sat_sub(old(self).c_col as int, 1) as usize, ..*old(self) }),
    {
        self.c_col = self.c_col.saturating_sub(1);
    }

    pub fn right(&mut self)
        ensures
            *final(self) == (Nav {
                c_col: if old(self).c_col == usize::MAX { usize::MAX } else { (old(self).c_col + 1) as usize },
                ..*old(self)
            }),
    {
        self.c_col = self.c_col.saturating_add(1);
    }

    pub fn full_up(&mut self)
        ensures
            *final(self) == (Nav { c_row: 0, ..*old(self) }),
    {
        self.c_row = 0;
    }

    pub fn full_down(&mut self)
        ensures
            *final(self) == (Nav { c_row: old(self).m_row, ..*old(self) }),
    {
        self.c_row = self.m_row;
    }

    pub fn full_left(&mut self)
        ensures
            *final(self) == (Nav { c_col: 0, ..*old(self) }),
    {
        self.c_col = 0;
    }

    pub fn full_right(&mut self)
        ensures
            *final(self) == (Nav { c_col: old(self).m_col, ..*old(self) }),
    {
        self.c_col = self.m_col;
    }

    /// Fits the row cursor into `total` rows and slides the viewport of `nb`
    /// rows so that it shows the cursor. Returns the new row origin.
    pub fn row_offset(&mut self, total: usize, nb: usize) -> (r: usize)
        ensures
            final(self).m_row == sat_sub(total as int, 1),
            final(self).c_row == if old(self).c_row <= final(self).m_row { old(self).c_row } else { final(self).m_row },
            final(self).o_row == if final(self).c_row < old(self).o_row {
                final(self).c_row as int
            } else if final(self).c_row >= old(self).o_row + nb {
                final(self).c_row - nb + 1
            } else {
                old(self).o_row as int
            },
            nb > 0 ==> final(self).o_row <= final(self).c_row < final(self).o_row + nb,
            r == final(self).o_row,
            final(self).o_col == old(self).o_col && final(self).c_col == old(self).c_col,
            final(self).m_col == old(self).m_col,
    {
        self.m_row = total.saturating_sub(1);
        if self.c_row > self.m_row {
            self.c_row = self.m_row;
        }
        if self.c_row < self.o_row {
            self.o_row = self.c_row;
        } else if self.c_row - self.o_row >= nb {
            self.o_row = self.c_row - nb + 1;
        }
        self.o_row
    }

    /// Starts a pass of column packing over `total` visible columns: fits the
    /// column cursor into them, and resets the origin to the cursor. The
    /// previous origin (moved left to the cursor if it was right of it) is the
    /// goal that the pass tries to keep visible.
    pub fn col_iter(&mut self, total: usize) -> (it: ColIter)
        ensures
            final(self).m_col == sat_sub(total as int, 1),
            final(self).c_col == if old(self).c_col <= final(self).m_col { old(self).c_col } else { final(self).m_col },
            it.goal == if final(self).c_col < old(self).o_col { final(self).c_col } else { old(self).o_col },
            final(self).o_col == final(self).c_col,
            it.step == 0,
            it.done == (total == 0),
            it.goal <= final(self).c_col <= final(self).m_col,
            final(self).o_row == old(self).o_row && final(self).c_row == old(self).c_row,
            final(self).m_row == old(self).m_row,
    {
        self.m_col = total.saturating_sub(1);
        if self.c_col > self.m_col {
            self.c_col = self.m_col;
        }
        if self.c_col < self.o_col {
            self.o_col = self.c_col;
        }
        let goal = self.o_col;
        self.o_col = self.c_col;
        ColIter { goal, step: 0, done: total == 0 }
    }

    /// The column to try next in this pass, or `None` when the pass is over.
    pub fn col_next(&self, it: &ColIter) -> (r: Option<usize>)
        requires
            it.goal <= self.c_col <= self.m_col,
        ensures
            it.done ==> r is None,
            !it.done ==> r == match pack_col(it.goal as int, self.c_col as int, self.m_col as int, it.step as int) {
                Some(c) => Some(c as usize),
                None => None::<usize>,
            },
    {
        if it.done {
            None
        } else if it.step <= self.c_col - it.goal {
            Some(self.c_col - it.step)
        } else if it.step <= self.m_col - it.goal {
            Some(it.goal + it.step)
        } else if it.step <= self.m_col {
            Some(self.m_col - it.step)
        } else {
            None
        }
    }

    /// Records whether the column `off` that `col_next` handed out fitted.
    /// The origin moves left to `off` when it fitted or lies right of the
    /// goal; the pass ends at the first column that does not fit.
    pub fn col_fit(&mut self, it: &mut ColIter, off: usize, fits: bool)
        requires
            old(it).step < usize::MAX,
        ensures
            final(it).goal == old(it).goal,
            final(it).step == old(it).step + 1,
            final(it).done == (old(it).done || !fits),
            final(self).o_col == if (fits || off >= old(it).goal) && off < old(self).o_col {
                off
            } else {
                old(self).o_col
            },
            final(self).c_col == old(self).c_col && final(self).m_col == old(self).m_col,
            final(self).c_row == old(self).c_row && final(self).o_row == old(self).o_row,
            final(self).m_row == old(self).m_row,
    {
        it.step = it.step + 1;
        if (fits || off >= it.goal) && off < self.o_col {
            self.o_col = off;
        }
        if !fits {
            it.done = true;
        }
    }

    pub fn go_to(&mut self, pos: (usize, usize))
        ensures
            *final(self) == (Nav { c_row: pos.0, c_col: pos.1, ..*old(self) }),
    {
        self.c_row = pos.0;
        self.c_col = pos.1;
    }
}

/// The cursor column comes first in every packing pass.
pub proof fn lemma_pack_starts_at_cursor(goal: int, cur: int, max: int)
    requires
        0 <= goal <= cur <= max,
    ensures
        pack_col(goal, cur, max, 0) == Some(cur),
{
}

/// A packing pass visits each column of `0..=max` once: each step below
/// `max + 1` hands out a column in range, two steps never the same column,
/// and every later step ends the pass.
pub proof fn lemma_pack_is_permutation(goal: int, cur: int, max: int, s: int, t: int)
    requires
        0 <= goal <= cur <= max,
        0 <= s <= max,
        0 <= t <= max,
        s != t,
    ensures
        pack_col(goal, cur, max, s) is Some,
        0 <= pack_col(goal, cur, max, s)->0 <= max,
        pack_col(goal, cur, max, s) != pack_col(goal, cur, max, t),
        pack_col(goal, cur, max, max + 1) is None,
{
}

/// The previous origin is handed out before any column left of it, so it
/// stays visible whenever the columns between it and the cursor fit.
pub proof fn lemma_pack_keeps_goal(goal: int, cur: int, max: int, s: int)
    requires
        0 <= goal <= cur <= max,
        0 <= s <= max,
        pack_col(goal, cur, max, s)->0 < goal,
    ensures
        pack_col(goal, cur, max, cur - goal) == Some(goal),
        cur - goal < s,
{
}

/// `s` read as a `usize`: an optional `+`, then at least one decimal digit,
/// with a value that fits.
pub open spec fn usize_of(s: Seq<u8>) -> Option<usize> {
    if unsigned_digits(s).len() > 0 && all_digits(unsigned_digits(s)) && digits_value(unsigned_digits(s)) <= usize::MAX {
        Some(digits_value(unsigned_digits(s)) as usize)
    } else {
        None
    }
}

/// Reads `s` as a `usize`.
pub fn parse_usize(s: &[u8]) -> (r: Option<usize>)
    ensures
        r == usize_of(s@),
{
    let n = s.len();
    let from: usize = if n > 0 && s[0] == 0x2B { 1 } else { 0 };
    let ghost d = unsigned_digits(s@);
    assert(d =~= s@.subrange(from as int, n as int));
    if from == n {
        return None;
    }
    let mut v: usize = 0;
    let mut i: usize = from;
    while i < n
        invariant
            from <= i <= n == s@.len(),
            d == unsigned_digits(s@),
            d =~= s@.subrange(from as int, n as int),
            forall|k: int| from <= k < i ==> crate::filter::lexer::is_digit(#[trigger] s@[k]),
            v == digits_value(s@.subrange(from as int, i as int)),
        decreases n - i,
    {
        let c = s[i];
        if c < 0x30 || c > 0x39 {
            proof {
                assert(d[i - from] == c);
                assert(!all_digits(d));
            }
            return None;
        }
        assert(s@.subrange(from as int, i + 1).drop_last() =~= s@.subrange(from as int, i as int));
        let digit = (c - 0x30) as usize;
        if v > (usize::MAX - digit) / 10 {
            proof {
                let t = s@.subrange(from as int, i + 1);
                assert(digits_value(t) == v * 10 + digit);
                assert(v * 10 + digit > usize::MAX) by (nonlinear_arith)
                    requires v > (usize::MAX - digit) / 10, digit <= 9;
                if all_digits(d) {
                    crate::filter::compiler::lemma_digits_value_grows(d, i + 1 - from);
                    assert(d.subrange(0, i + 1 - from) =~= t);
                }
            }
            return None;
        }
        assert(v * 10 + digit <= usize::MAX) by (nonlinear_arith)
            requires v <= (usize::MAX - digit) / 10, digit <= 9;
        v = v * 10 + digit;
        i = i + 1;
    }
    assert(s@.subrange(from as int, n as int) =~= d);
    Some(v)
}

/// The index of the first `:` in `s`, or its length.
pub open spec fn colon_pos(s: Seq<u8>) -> int
    decreases s.len(),
{
    if s.len() == 0 || s[0] == 0x3A { 0 } else { 1 + colon_pos(s.drop_first()) }
}

/// The cell that a typed position `row[:col]` (both counted from 1)
/// designates; a part that does not read as a number keeps the coordinate
/// of `from`.
pub open spec fn goto_spec(text: Seq<u8>, from: (usize, usize)) -> (usize, usize) {
    let c = colon_pos(text);
    let row = text.subrange(0, c);
    let col = if c < text.len() { text.subrange(c + 1, text.len() as int) } else { Seq::empty() };
    (
        match usize_of(row) { Some(v) => if v == 0 { 0 } else { (v - 1) as usize }, None => from.0 },
        match usize_of(col) { Some(v) => if v == 0 { 0 } else { (v - 1) as usize }, None => from.1 },
    )
}

proof fn lemma_colon_pos(s: Seq<u8>)
    ensures
        0 <= colon_pos(s) <= s.len(),
        colon_pos(s) < s.len() ==> s[colon_pos(s)] == 0x3A,
        forall|i: int| 0 <= i < colon_pos(s) ==> s[i] != 0x3A,
    decreases s.len(),
{
    if s.len() > 0 && s[0] != 0x3A {
        lemma_colon_pos(s.drop_first());
        assert forall|i: int| 0 <= i < colon_pos(s) implies s[i] != 0x3A by {
            if i > 0 {
                assert(s[i] == s.drop_first()[i - 1]);
            }
        }
    }
}

/// The cell that a typed position `row[:col]` designates.
pub fn goto_target(text: &[u8], from: (usize, usize)) -> (r: (usize, usize))
    ensures
        r == goto_spec(text@, from),
{
    let n = text.len();
    let mut c: usize = 0;
    proof {
        lemma_colon_pos(text@);
    }
    while c < n && text[c] != 0x3A
        invariant
            c <= n == text@.len(),
            forall|k: int| 0 <= k < c ==> text@[k] != 0x3A,
            0 <= colon_pos(text@) <= n,
            colon_pos(text@) < n ==> text@[colon_pos(text@)] == 0x3A,
            forall|k: int| 0 <= k < colon_pos(text@) ==> text@[k] != 0x3A,
        decreases n - c,
    {
        c = c + 1;
    }
    assert(c == colon_pos(text@));
    let row = parse_usize(&text[0..c]);
    let col: Option<usize> = if c < n { parse_usize(&text[c + 1..n]) } else { None };
    (
        match row { Some(v) => v.saturating_sub(1), None => from.0 },
        match col { Some(v) => v.saturating_sub(1), None => from.1 },
    )
}

} // verus!
