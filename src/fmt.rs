use crate::num::{is_decimal, is_decimal_bytes};
use crate::record::{trim_bytes, trimmed};
use unicode_width::UnicodeWidthChar;
use vstd::prelude::*;

verus! {

/// The widest a column of strings gets by default.
pub const STR_BUDGET: usize = 25;

/// The widest any other column gets by default.
pub const MAX_BUDGET: usize = 40;

/// The display width of `c`, `None` for a control character.
pub uninterp spec fn char_width(c: char) -> Option<usize>;

/// The characters of the bytes `b`, read as UTF-8 with each invalid
/// sequence replaced.
pub uninterp spec fn lossy_chars(b: Seq<u8>) -> Seq<char>;

/// Relies on unicode-width's `UnicodeWidthChar::width`.
#[verifier::external_body]
fn width_of_char(c: char) -> (r: Option<usize>)
    ensures
        r == char_width(c),
{
    c.width()
}

/// Relies on `String::from_utf8_lossy`: the characters of `b`.
#[verifier::external_body]
fn decode_lossy(b: &[u8]) -> (r: Vec<char>)
    ensures
        r@ == lossy_chars(b@),
{
    String::from_utf8_lossy(b).chars().collect()
}

/// Relies on `str::chars`: the characters of `s`.
#[verifier::external_body]
fn chars_of(s: &str) -> (r: Vec<char>)
    ensures
        r@ == s@,
{
    s.chars().collect()
}

/// Relies on `String`'s `FromIterator<char>`: the text of `cs`.
#[verifier::external_body]
fn string_of(cs: &Vec<char>) -> (r: String)
    ensures
        r@ == cs@,
{
    cs.iter().collect()
}

/// The width one character takes: control characters take none.
pub open spec fn cell_width(c: char) -> nat {
    match char_width(c) {
        Some(w) => w as nat,
        None => 0,
    }
}

/// The display width of `cs`.
pub open spec fn text_width(cs: Seq<char>) -> nat
    decreases cs.len(),
{
    if cs.len() == 0 { 0 } else { text_width(cs.drop_last()) + cell_width(cs.last()) }
}

/// The display width of `cs`, held to `usize`.
pub open spec fn text_width_usize(cs: Seq<char>) -> usize {
    if text_width(cs) <= usize::MAX { text_width(cs) as usize } else { usize::MAX }
}

/// The guessed type of a field.
#[derive(Debug, Clone, Copy, PartialEq, Eq, Structural)]
pub enum Ty {
    Bool,
    /// A number with `lhs` bytes before its `.` and `rhs` from it on.
    Nb { lhs: usize, rhs: usize },
    Str,
}

/// Where the first `.` of `s` is, or its length.
pub open spec fn dot_pos(s: Seq<u8>) -> int
    decreases s.len(),
{
    if s.len() == 0 {
        0
    } else if s[0] == 0x2E {
        0
    } else {
        1 + dot_pos(s.drop_first())
    }
}

/// Whether `s` is `true` or `false`, in lower case, title case or upper case.
pub open spec fn is_bool_word(s: Seq<u8>) -> bool {
    s == seq![0x74u8, 0x72, 0x75, 0x65] || s == seq![0x54u8, 0x72, 0x75, 0x65] || s == seq![0x54u8, 0x52, 0x55, 0x45]
        || s == seq![0x66u8, 0x61, 0x6C, 0x73, 0x65] || s == seq![0x46u8, 0x61, 0x6C, 0x73, 0x65]
        || s == seq![0x46u8, 0x41, 0x4C, 0x53, 0x45]
}

/// The type a field is guessed to have.
pub open spec fn guess_spec(s: Seq<u8>) -> Ty {
    if is_decimal(s) {
        Ty::Nb { lhs: dot_pos(s) as usize, rhs: (s.len() - dot_pos(s)) as usize }
    } else if is_bool_word(s) {
        Ty::Bool
    } else {
        Ty::Str
    }
}

proof fn lemma_dot_pos(s: Seq<u8>)
    ensures
        0 <= dot_pos(s) <= s.len(),
        dot_pos(s) < s.len() ==> s[dot_pos(s)] == 0x2E,
        forall|i: int| 0 <= i < dot_pos(s) ==> s[i] != 0x2E,
    decreases s.len(),
{
    if s.len() > 0 && s[0] != 0x2E {
        lemma_dot_pos(s.drop_first());
        assert forall|i: int| 0 <= i < dot_pos(s) implies s[i] != 0x2E by {
            if i > 0 {
                assert(s[i] == s.drop_first()[i - 1]);
            }
        }
    }
}

impl Ty {
    /// The type of the field `field` once trimmed: a number if it reads as
    /// one, a boolean if it is a `true` or `false` word, else a string.
    pub fn guess(field: &[u8]) -> (r: Ty)
        ensures
            r == guess_spec(trimmed(field@)),
    {
        let s = trim_bytes(field);
        if is_decimal_bytes(s) {
            let n = s.len();
            let mut i: usize = 0;
            proof {
                lemma_dot_pos(s@);
            }
            while i < n && s[i] != 0x2E
                invariant
                    i <= n == s@.len(),
                    forall|k: int| 0 <= k < i ==> s@[k] != 0x2E,
                    0 <= dot_pos(s@) <= n,
                    dot_pos(s@) < n ==> s@[dot_pos(s@)] == 0x2E,
                    forall|k: int| 0 <= k < dot_pos(s@) ==> s@[k] != 0x2E,
                decreases n - i,
            {
                i = i + 1;
            }
            assert(i == dot_pos(s@));
            Ty::Nb { lhs: i, rhs: n - i }
        } else if is_bool(s) {
            Ty::Bool
        } else {
            Ty::Str
        }
    }

    pub fn is_str(&self) -> (r: bool)
        ensures
            r == (*self == Ty::Str),
    {
        match self {
            Ty::Str => true,
            _ => false,
        }
    }
}

fn is_bool(s: &[u8]) -> (r: bool)
    ensures
        r == is_bool_word(s@),
{
    let n = s.len();
    let r = if n == 4 {
        (s[0] == 0x74 && s[1] == 0x72 && s[2] == 0x75 && s[3] == 0x65)
            || (s[0] == 0x54 && s[1] == 0x72 && s[2] == 0x75 && s[3] == 0x65)
            || (s[0] == 0x54 && s[1] == 0x52 && s[2] == 0x55 && s[3] == 0x45)
    } else if n == 5 {
        (s[0] == 0x66 && s[1] == 0x61 && s[2] == 0x6C && s[3] == 0x73 && s[4] == 0x65)
            || (s[0] == 0x46 && s[1] == 0x61 && s[2] == 0x6C && s[3] == 0x73 && s[4] == 0x65)
            || (s[0] == 0x46 && s[1] == 0x41 && s[2] == 0x4C && s[3] == 0x53 && s[4] == 0x45)
    } else {
        false
    };
    proof {
        if n == 4 {
            assert(r == (s@ =~= seq![0x74u8, 0x72, 0x75, 0x65] || s@ =~= seq![0x54u8, 0x72, 0x75, 0x65]
                || s@ =~= seq![0x54u8, 0x52, 0x55, 0x45]));
        } else if n == 5 {
            assert(r == (s@ =~= seq![0x66u8, 0x61, 0x6C, 0x73, 0x65] || s@ =~= seq![0x46u8, 0x61, 0x6C, 0x73, 0x65]
                || s@ =~= seq![0x46u8, 0x41, 0x4C, 0x53, 0x45]));
        }
    }
    r
}

/// The display width of `cs`, held to `usize`.
pub fn width_of(cs: &Vec<char>) -> (r: usize)
    ensures
        r == text_width_usize(cs@),
{
    let mut w: usize = 0;
    let mut i: usize = 0;
    while i < cs.len()
        invariant
            i <= cs@.len(),
            w == text_width_usize(cs@.subrange(0, i as int)),
        decreases cs@.len() - i,
    {
        assert(cs@.subrange(0, i + 1).drop_last() =~= cs@.subrange(0, i as int));
        let c = match width_of_char(cs[i]) {
            Some(c) => c,
            None => 0,
        };
        w = w.saturating_add(c);
        i = i + 1;
    }
    assert(cs@.subrange(0, i as int) =~= cs@);
    w
}

/// What a column's cells hold, for aligning and sizing them.
#[derive(Debug, Clone, Copy, PartialEq, Eq, Structural)]
pub struct ColStat {
    pub header_len: usize,
    pub align_decimal: bool,
    pub only_str: bool,
    pub max_lhs: usize,
    pub max_rhs: usize,
}

/// `a` and `b`, or the larger.
pub open spec fn max_usize(a: usize, b: usize) -> usize {
    if a >= b { a } else { b }
}

impl ColStat {
    pub fn new() -> (r: ColStat)
        ensures
            r == (ColStat { header_len: 0, align_decimal: false, only_str: true, max_lhs: 0, max_rhs: 0 }),
    {
        ColStat { header_len: 0, align_decimal: false, only_str: true, max_lhs: 0, max_rhs: 0 }
    }

    /// Records the width of the header.
    pub fn header_name(&mut self, s: &[u8])
        ensures
            *final(self) == (ColStat { header_len: text_width_usize(lossy_chars(s@)), ..*old(self) }),
    {
        self.header_len = width_of(&decode_lossy(s));
    }

    /// Records one cell of type `ty` and bytes `s`.
    pub fn add(&mut self, ty: &Ty, s: &[u8])
        ensures
            final(self).only_str == (old(self).only_str && *ty == Ty::Str),
            final(self).header_len == old(self).header_len,
            match *ty {
                Ty::Bool => final(self).max_lhs == max_usize(old(self).max_lhs, 5) && final(self).max_rhs
                    == old(self).max_rhs && final(self).align_decimal == old(self).align_decimal,
                Ty::Nb { lhs, rhs } => final(self).max_lhs == max_usize(old(self).max_lhs, lhs)
                    && final(self).max_rhs == max_usize(old(self).max_rhs, rhs) && final(self).align_decimal,
                Ty::Str => final(self).max_lhs == max_usize(old(self).max_lhs, text_width_usize(lossy_chars(s@)))
                    && final(self).max_rhs == old(self).max_rhs && final(self).align_decimal == old(self).align_decimal,
            },
    {
        self.only_str = self.only_str && ty.is_str();
        match ty {
            Ty::Bool => if self.max_lhs < 5 {
                self.max_lhs = 5;
            },
            Ty::Nb { lhs, rhs } => {
                if self.max_lhs < *lhs {
                    self.max_lhs = *lhs;
                }
                if self.max_rhs < *rhs {
                    self.max_rhs = *rhs;
                }
                self.align_decimal = true;
            },
            Ty::Str => {
                let w = width_of(&decode_lossy(s));
                if self.max_lhs < w {
                    self.max_lhs = w;
                }
            },
        }
    }

    /// The width the column asks for: its widest content or its header,
    /// capped for a column of strings and for any other.
    pub fn budget(&self) -> (r: usize)
        ensures
            ({
                let content = if self.max_lhs + self.max_rhs <= usize::MAX { (self.max_lhs + self.max_rhs) as usize } else { usize::MAX };
                let want = max_usize(content, self.header_len);
                let cap = if self.only_str { STR_BUDGET } else { MAX_BUDGET };
                r == if want <= cap { want } else { cap }
            }),
    {
        let content = self.max_lhs.saturating_add(self.max_rhs);
        let want = if content >= self.header_len { content } else { self.header_len };
        let cap = if self.only_str { STR_BUDGET } else { MAX_BUDGET };
        if want <= cap { want } else { cap }
    }
}


/// `n` spaces.
pub open spec fn spaces(n: nat) -> Seq<char> {
    Seq::new(n, |i: int| ' ')
}

/// `a - b`, or 0 when `b > a`.
pub open spec fn sat_sub(a: usize, b: usize) -> nat {
    if a >= b { (a - b) as nat } else { 0 }
}

/// `a + b`, held to `usize`.
pub open spec fn sat_add(a: usize, b: usize) -> usize {
    if a + b <= usize::MAX { (a + b) as usize } else { usize::MAX }
}

/// `cs` right-aligned in `w` characters.
pub open spec fn align_right(cs: Seq<char>, w: nat) -> Seq<char> {
    if cs.len() >= w { cs } else { spaces((w - cs.len()) as nat) + cs }
}

/// The first index from `i` at which the width of the characters up to and
/// including it passes `budget`.
pub open spec fn overflow_from(cs: Seq<char>, budget: usize, i: int) -> Option<int>
    decreases cs.len() - i,
{
    if i < 0 || i >= cs.len() {
        None
    } else if text_width_usize(cs.subrange(0, i + 1)) > budget {
        Some(i)
    } else {
        overflow_from(cs, budget, i + 1)
    }
}

/// `cs` cut to `budget` cells: where it does not fit, it stops one
/// character before the first that overflows and ends with an ellipsis.
pub open spec fn trim_spec(cs: Seq<char>, budget: usize) -> Seq<char> {
    match overflow_from(cs, budget, 0) {
        None => cs,
        Some(k) => cs.subrange(0, if k == 0 { 0 } else { k - 1 }) + seq!['\u{2026}'],
    }
}

/// A cell: numbers are aligned on their decimal point, and strings and
/// booleans of a column that holds numbers are right-aligned with them;
/// then the cell is padded to `budget` cells and cut to it.
pub open spec fn render(ty: Ty, s: Seq<char>, stat: ColStat, budget: usize) -> Seq<char> {
    let total = sat_add(stat.max_lhs, stat.max_rhs);
    let aligned = stat.align_decimal || ty is Nb;
    let lead = if aligned { spaces(sat_sub(budget, total)) } else { Seq::empty() };
    let pad: nat = match ty {
        Ty::Nb { rhs, .. } => sat_add(stat.max_lhs, rhs) as nat,
        _ => if stat.align_decimal { stat.max_lhs as nat } else { 0 },
    };
    let body = lead + align_right(s, pad);
    trim_spec(body + spaces(sat_sub(budget, text_width_usize(body))), budget)
}

/// The character of the digit `d`.
pub open spec fn digit_char(d: int) -> char {
    if d == 0 { '0' } else if d == 1 { '1' } else if d == 2 { '2' } else if d == 3 { '3' } else if d == 4 {
        '4'
    } else if d == 5 { '5' } else if d == 6 { '6' } else if d == 7 { '7' } else if d == 8 { '8' } else { '9' }
}

/// The decimal digits of `n`.
pub open spec fn digits(n: nat) -> Seq<char>
    decreases n,
{
    if n < 10 { seq![digit_char(n as int)] } else { digits(n / 10).push(digit_char((n % 10) as int)) }
}

/// `d` with `_` between groups of three, counted from the right.
pub open spec fn group3(d: Seq<char>) -> Seq<char>
    decreases d.len(),
{
    if d.len() <= 3 { d } else { group3(d.subrange(0, d.len() - 3)) + seq!['_'] + d.subrange(d.len() - 3, d.len() as int) }
}

fn digit(d: usize) -> (r: char)
    requires
        d < 10,
    ensures
        r == digit_char(d as int),
{
    if d == 0 { '0' } else if d == 1 { '1' } else if d == 2 { '2' } else if d == 3 { '3' } else if d == 4 {
        '4'
    } else if d == 5 { '5' } else if d == 6 { '6' } else if d == 7 { '7' } else if d == 8 { '8' } else { '9' }
}

fn push_digits(n: usize, out: &mut Vec<char>)
    ensures
        final(out)@ == old(out)@ + digits(n as nat),
    decreases n,
{
    if n < 10 {
        out.push(digit(n));
        assert(final(out)@ =~= old(out)@ + digits(n as nat));
    } else {
        push_digits(n / 10, out);
        out.push(digit(n % 10));
        assert(out@ =~= old(out)@ + digits(n as nat));
    }
}

fn push_grouped(d: &Vec<char>, end: usize, out: &mut Vec<char>)
    requires
        end <= d@.len(),
    ensures
        final(out)@ == old(out)@ + group3(d@.subrange(0, end as int)),
    decreases end,
{
    if end <= 3 {
        let mut i: usize = 0;
        while i < end
            invariant
                i <= end <= d@.len(),
                out@ == old(out)@ + d@.subrange(0, i as int),
            decreases end - i,
        {
            out.push(d[i]);
            i = i + 1;
            assert(out@ =~= old(out)@ + d@.subrange(0, i as int));
        }
    } else {
        push_grouped(d, end - 3, out);
        out.push('_');
        let ghost mid = out@;
        let mut i: usize = end - 3;
        while i < end
            invariant
                end > 3,
                end - 3 <= i <= end <= d@.len(),
                out@ == mid + d@.subrange(end - 3, i as int),
            decreases end - i,
        {
            out.push(d[i]);
            i = i + 1;
            assert(out@ =~= mid + d@.subrange(end - 3, i as int));
        }
        let ghost p = d@.subrange(0, end as int);
        assert(p.subrange(0, p.len() - 3) =~= d@.subrange(0, end - 3));
        assert(p.subrange(p.len() - 3, p.len() as int) =~= d@.subrange(end - 3, end as int));
        assert(out@ =~= old(out)@ + group3(p));
    }
}

/// `cs` cut to `budget` cells.
fn trim_chars(cs: Vec<char>, budget: usize) -> (r: Vec<char>)
    ensures
        r@ == trim_spec(cs@, budget),
{
    let n = cs.len();
    let mut w: usize = 0;
    let mut i: usize = 0;
    while i < n
        invariant
            i <= n == cs@.len(),
            w == text_width_usize(cs@.subrange(0, i as int)),
            overflow_from(cs@, budget, 0) == overflow_from(cs@, budget, i as int),
        decreases n - i,
    {
        assert(cs@.subrange(0, i + 1).drop_last() =~= cs@.subrange(0, i as int));
        let c = match width_of_char(cs[i]) {
            Some(c) => c,
            None => 0,
        };
        w = w.saturating_add(c);
        if w > budget {
            let keep = if i == 0 { 0 } else { i - 1 };
            let mut r: Vec<char> = Vec::new();
            let mut j: usize = 0;
            while j < keep
                invariant
                    j <= keep < n == cs@.len(),
                    r@ == cs@.subrange(0, j as int),
                decreases keep - j,
            {
                r.push(cs[j]);
                j = j + 1;
                assert(r@ =~= cs@.subrange(0, j as int));
            }
            r.push('\u{2026}');
            assert(r@ =~= cs@.subrange(0, keep as int) + seq!['\u{2026}']);
            return r;
        }
        i = i + 1;
    }
    cs
}

/// Formats cells into one reused buffer.
pub struct Fmt {
    buff: String,
}

impl Fmt {
    pub fn new() -> (r: Fmt) {
        Fmt { buff: String::new() }
    }

    /// `nb` in decimal, with `_` between groups of three digits.
    pub fn amount(&mut self, nb: usize) -> (r: &str)
        ensures
            r@ == group3(digits(nb as nat)),
    {
        let mut d: Vec<char> = Vec::new();
        push_digits(nb, &mut d);
        assert(d@ =~= digits(nb as nat));
        let mut out: Vec<char> = Vec::new();
        push_grouped(&d, d.len(), &mut out);
        assert(d@.subrange(0, d@.len() as int) =~= d@);
        assert(out@ =~= group3(digits(nb as nat)));
        self.buff = string_of(&out);
        self.buff.as_str()
    }

    /// `s` cut to `budget` cells.
    pub fn rtrim(&mut self, s: &str, budget: usize) -> (r: &str)
        ensures
            r@ == trim_spec(s@, budget),
    {
        let cs = chars_of(s);
        self.buff = string_of(&trim_chars(cs, budget));
        self.buff.as_str()
    }

    /// The cell for the field `s` of type `ty` in a column described by
    /// `stat`, `budget` cells wide.
    pub fn field(&mut self, ty: &Ty, s: &[u8], stat: &ColStat, budget: usize) -> (r: &str)
        ensures
            r@ == render(*ty, lossy_chars(s@), *stat, budget),
    {
        let total = stat.max_lhs.saturating_add(stat.max_rhs);
        let aligned = stat.align_decimal || match ty {
            Ty::Nb { .. } => true,
            _ => false,
        };
        let mut body: Vec<char> = Vec::new();
        if aligned {
            push_spaces(&mut body, budget.saturating_sub(total));
        }
        let pad = match ty {
            Ty::Nb { rhs, .. } => stat.max_lhs.saturating_add(*rhs),
            _ => if stat.align_decimal { stat.max_lhs } else { 0 },
        };
        let cs = decode_lossy(s);
        if cs.len() < pad {
            push_spaces(&mut body, pad - cs.len());
        }
        let ghost before = body@;
        let mut i: usize = 0;
        while i < cs.len()
            invariant
                i <= cs@.len(),
                body@ == before + cs@.subrange(0, i as int),
            decreases cs@.len() - i,
        {
            body.push(cs[i]);
            i = i + 1;
            assert(body@ =~= before + cs@.subrange(0, i as int));
        }
        assert(cs@.subrange(0, cs@.len() as int) =~= cs@);
        let ghost lead = if aligned { spaces(sat_sub(budget, total)) } else { Seq::<char>::empty() };
        assert(body@ =~= lead + align_right(cs@, pad as nat));
        let w = width_of(&body);
        push_spaces(&mut body, budget.saturating_sub(w));
        self.buff = string_of(&trim_chars(body, budget));
        self.buff.as_str()
    }
}

fn push_spaces(out: &mut Vec<char>, n: usize)
    ensures
        final(out)@ == old(out)@ + spaces(n as nat),
{
    let mut i: usize = 0;
    while i < n
        invariant
            i <= n,
            out@ == old(out)@ + spaces(i as nat),
        decreases n - i,
    {
        out.push(' ');
        i = i + 1;
        assert(out@ =~= old(out)@ + spaces(i as nat));
    }
}

proof fn lemma_width_ones(cs: Seq<char>)
    requires
        forall|i: int| 0 <= i < cs.len() ==> char_width(#[trigger] cs[i]) == Some(1usize),
    ensures
        text_width(cs) == cs.len(),
    decreases cs.len(),
{
    if cs.len() > 0 {
        let d = cs.drop_last();
        assert forall|i: int| 0 <= i < d.len() implies char_width(#[trigger] d[i]) == Some(1usize) by {
            assert(d[i] == cs[i]);
        }
        lemma_width_ones(d);
    }
}

proof fn lemma_no_overflow(cs: Seq<char>, budget: usize, i: int)
    requires
        forall|k: int| 0 <= k < cs.len() ==> char_width(#[trigger] cs[k]) == Some(1usize),
        cs.len() <= budget,
        0 <= i,
    ensures
        overflow_from(cs, budget, i) is None,
    decreases cs.len() - i,
{
    if i < cs.len() {
        let p = cs.subrange(0, i + 1);
        assert forall|k: int| 0 <= k < p.len() implies char_width(#[trigger] p[k]) == Some(1usize) by {
            assert(p[k] == cs[k]);
        }
        lemma_width_ones(p);
        lemma_no_overflow(cs, budget, i + 1);
    }
}

/// A number whose characters each take one cell, rendered in a column wide
/// enough for it, keeps its text whole between padding spaces, so that the
/// number read back from the cell has the same digits before and after its
/// point.
pub proof fn lemma_number_round_trip(s: Seq<u8>, cs: Seq<char>, stat: ColStat, budget: usize) -> (pads: (nat, nat))
    requires
        is_decimal(s),
        cs == lossy_chars(s),
        cs.len() == s.len(),
        char_width(' ') == Some(1usize),
        forall|i: int| 0 <= i < cs.len() ==> char_width(#[trigger] cs[i]) == Some(1usize),
        dot_pos(s) <= stat.max_lhs,
        s.len() - dot_pos(s) <= stat.max_rhs,
        stat.max_lhs + stat.max_rhs <= budget,
    ensures
        guess_spec(s) == (Ty::Nb { lhs: dot_pos(s) as usize, rhs: (s.len() - dot_pos(s)) as usize }),
        render(guess_spec(s), cs, stat, budget) == spaces(pads.0) + cs + spaces(pads.1),
{
    lemma_dot_pos(s);
    let lhs = dot_pos(s);
    let rhs = s.len() - lhs;
    let total = (stat.max_lhs + stat.max_rhs) as usize;
    let pad = stat.max_lhs + rhs;
    let a1 = (budget - total) as nat;
    let a2 = (pad - cs.len()) as nat;
    assert(align_right(cs, pad as nat) == spaces(a2) + cs);
    let body = spaces(a1) + (spaces(a2) + cs);
    assert forall|k: int| 0 <= k < body.len() implies char_width(#[trigger] body[k]) == Some(1usize) by {
        if k < a1 {
            assert(body[k] == ' ');
        } else if k < a1 + a2 {
            assert(body[k] == ' ');
        } else {
            assert(body[k] == cs[k - a1 - a2]);
        }
    }
    lemma_width_ones(body);
    let b = (budget - body.len()) as nat;
    let full = body + spaces(b);
    assert forall|k: int| 0 <= k < full.len() implies char_width(#[trigger] full[k]) == Some(1usize) by {
        if k < body.len() {
            assert(full[k] == body[k]);
        } else {
            assert(full[k] == ' ');
        }
    }
    lemma_no_overflow(full, budget, 0);
    assert(spaces(a1) + spaces(a2) =~= spaces(a1 + a2));
    assert(full =~= spaces(a1 + a2) + cs + spaces(b));
    (a1 + a2, b)
}

} // verus!
