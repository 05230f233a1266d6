use crate::num::{is_decimal, is_decimal_bytes};
use vstd::prelude::*;
use vstd::string::StringSliceAdditionalSpecFns;

verus! {

#[derive(Debug, Clone, Copy, PartialEq, Eq, Structural)]
pub enum CmpOp {
    Eq,
    Ne,
    Gt,
    Lt,
    Ge,
    Le,
}

#[derive(Debug, Clone, Copy, PartialEq, Eq, Structural)]
pub enum LogiOp {
    And,
    Or,
}

#[derive(Debug, Clone, Copy, PartialEq, Eq, Structural)]
pub enum MatchOp {
    All,
    Any,
}

#[derive(Debug, Clone, Copy, PartialEq, Eq, Structural)]
pub enum TokenKind {
    /// `==` `!=` `>` `<` `>=` `<=` or `eq` `ne` `gt` `lt` `ge` `le`
    Cmp(CmpOp),
    /// `&&` `||` or `and` `or`
    Logi(LogiOp),
    /// `all` `any`
    Match(MatchOp),
    /// `matches` or `~`
    Matches,
    /// `not` or `!`
    Not,
    /// `(`
    OpenExpr,
    /// `)`
    CloseExpr,
    /// `[`
    OpenRange,
    /// `]`
    CloseRange,
    /// `:`
    SepRange,
    /// `{`
    OpenList,
    /// `}`
    CloseList,
    /// `,`
    SepList,
    /// A decimal number
    Nb,
    /// Text between double quotes
    Str,
    /// Any other word
    Id,
    Eof,
}

/// A token and the byte span `start..end` it covers in the source.
#[derive(Debug, Clone, Copy, PartialEq, Eq, Structural)]
pub struct Token {
    pub kind: TokenKind,
    pub start: usize,
    pub end: usize,
}

/// The length of the white-space character at `i`, 0 if there is none.
/// White space is Unicode's `White_Space`, in UTF-8.
pub open spec fn space_len(s: Seq<u8>, i: int) -> int {
    if i < 0 || i >= s.len() {
        0
    } else if s[i] == 0x20 || (0x09 <= s[i] <= 0x0D) {
        1
    } else if s[i] == 0xC2 && i + 1 < s.len() && (s[i + 1] == 0x85 || s[i + 1] == 0xA0) {
        2
    } else if i + 2 < s.len() && (
        (s[i] == 0xE1 && s[i + 1] == 0x9A && s[i + 2] == 0x80)
        || (s[i] == 0xE2 && s[i + 1] == 0x80 && ((0x80 <= s[i + 2] <= 0x8A) || s[i + 2] == 0xA8
            || s[i + 2] == 0xA9 || s[i + 2] == 0xAF))
        || (s[i] == 0xE2 && s[i + 1] == 0x81 && s[i + 2] == 0x9F)
        || (s[i] == 0xE3 && s[i + 1] == 0x80 && s[i + 2] == 0x80)) {
        3
    } else {
        0
    }
}

/// The first position at or after `i` that does not start white space.
pub open spec fn skip_space(s: Seq<u8>, i: int) -> int
    decreases s.len() - i,
{
    if 0 <= i < s.len() && space_len(s, i) > 0 {
        skip_space(s, i + space_len(s, i))
    } else {
        i
    }
}

pub open spec fn is_digit(b: u8) -> bool {
    0x30 <= b <= 0x39
}

pub open spec fn is_alnum(b: u8) -> bool {
    is_digit(b) || (0x41 <= b <= 0x5A) || (0x61 <= b <= 0x7A)
}

/// A byte that continues a word: an ASCII letter or digit, a `.`, or a
/// byte of a non-ASCII character that is not white space.
pub open spec fn is_word_byte(s: Seq<u8>, i: int) -> bool {
    is_alnum(s[i]) || s[i] == 0x2E || (s[i] >= 0x80 && space_len(s, i) == 0)
}

/// The end of the run of word bytes from `i`.
pub open spec fn word_end(s: Seq<u8>, i: int) -> int
    decreases s.len() - i,
{
    if 0 <= i < s.len() && is_word_byte(s, i) {
        word_end(s, i + 1)
    } else {
        i
    }
}

/// Just past the first `"` at or after `i`, or the end of `s`.
pub open spec fn quote_end(s: Seq<u8>, i: int) -> int
    decreases s.len() - i,
{
    if 0 <= i < s.len() {
        if s[i] == 0x22 { i + 1 } else { quote_end(s, i + 1) }
    } else {
        s.len() as int
    }
}

/// The operator written with the two bytes `a` `b`.
pub open spec fn two_byte_kind(a: u8, b: u8) -> Option<TokenKind> {
    if b == 0x3D && a == 0x3D {
        Some(TokenKind::Cmp(CmpOp::Eq))
    } else if b == 0x3D && a == 0x21 {
        Some(TokenKind::Cmp(CmpOp::Ne))
    } else if b == 0x3D && a == 0x3E {
        Some(TokenKind::Cmp(CmpOp::Ge))
    } else if b == 0x3D && a == 0x3C {
        Some(TokenKind::Cmp(CmpOp::Le))
    } else if a == 0x26 && b == 0x26 {
        Some(TokenKind::Logi(LogiOp::And))
    } else if a == 0x7C && b == 0x7C {
        Some(TokenKind::Logi(LogiOp::Or))
    } else {
        None
    }
}

/// The token written with the single byte `a`.
pub open spec fn one_byte_kind(a: u8) -> Option<TokenKind> {
    if a == 0x3E {
        Some(TokenKind::Cmp(CmpOp::Gt))
    } else if a == 0x3C {
        Some(TokenKind::Cmp(CmpOp::Lt))
    } else if a == 0x7E {
        Some(TokenKind::Matches)
    } else if a == 0x21 {
        Some(TokenKind::Not)
    } else if a == 0x28 {
        Some(TokenKind::OpenExpr)
    } else if a == 0x29 {
        Some(TokenKind::CloseExpr)
    } else if a == 0x7B {
        Some(TokenKind::OpenList)
    } else if a == 0x7D {
        Some(TokenKind::CloseList)
    } else if a == 0x5B {
        Some(TokenKind::OpenRange)
    } else if a == 0x5D {
        Some(TokenKind::CloseRange)
    } else if a == 0x2C {
        Some(TokenKind::SepList)
    } else if a == 0x3A {
        Some(TokenKind::SepRange)
    } else {
        None
    }
}

pub open spec fn is_word2(w: Seq<u8>, a: u8, b: u8) -> bool {
    w.len() == 2 && w[0] == a && w[1] == b
}

pub open spec fn is_word3(w: Seq<u8>, a: u8, b: u8, c: u8) -> bool {
    w.len() == 3 && w[0] == a && w[1] == b && w[2] == c
}

/// Whether `w` is `matches`.
pub open spec fn is_matches_word(w: Seq<u8>) -> bool {
    w.len() == 7 && w[0] == 0x6D && w[1] == 0x61 && w[2] == 0x74 && w[3] == 0x63
        && w[4] == 0x68 && w[5] == 0x65 && w[6] == 0x73
}

/// The kind of the word `w`: a keyword, else a number if it reads as a
/// decimal, else an identifier.
pub open spec fn word_kind(w: Seq<u8>) -> TokenKind {
    if is_word2(w, 0x65, 0x71) {
        TokenKind::Cmp(CmpOp::Eq)
    } else if is_word2(w, 0x6E, 0x65) {
        TokenKind::Cmp(CmpOp::Ne)
    } else if is_word2(w, 0x67, 0x74) {
        TokenKind::Cmp(CmpOp::Gt)
    } else if is_word2(w, 0x6C, 0x74) {
        TokenKind::Cmp(CmpOp::Lt)
    } else if is_word2(w, 0x67, 0x65) {
        TokenKind::Cmp(CmpOp::Ge)
    } else if is_word2(w, 0x6C, 0x65) {
        TokenKind::Cmp(CmpOp::Le)
    } else if is_word3(w, 0x61, 0x6E, 0x64) {
        TokenKind::Logi(LogiOp::And)
    } else if is_word2(w, 0x6F, 0x72) {
        TokenKind::Logi(LogiOp::Or)
    } else if is_word3(w, 0x61, 0x6C, 0x6C) {
        TokenKind::Match(MatchOp::All)
    } else if is_word3(w, 0x61, 0x6E, 0x79) {
        TokenKind::Match(MatchOp::Any)
    } else if is_matches_word(w) {
        TokenKind::Matches
    } else if is_word3(w, 0x6E, 0x6F, 0x74) {
        TokenKind::Not
    } else if is_decimal(w) {
        TokenKind::Nb
    } else {
        TokenKind::Id
    }
}

/// The token that starts at or after `off`: white space is skipped, then
/// a two-byte operator, a one-byte operator, a quoted string, or a word
/// (its first byte and the word bytes after it).
pub open spec fn lex_spec(s: Seq<u8>, off: int) -> Token {
    let p = skip_space(s, off);
    if p >= s.len() {
        Token { kind: TokenKind::Eof, start: p as usize, end: p as usize }
    } else if p + 1 < s.len() && two_byte_kind(s[p], s[p + 1]) is Some {
        Token { kind: two_byte_kind(s[p], s[p + 1])->0, start: p as usize, end: (p + 2) as usize }
    } else if one_byte_kind(s[p]) is Some {
        Token { kind: one_byte_kind(s[p])->0, start: p as usize, end: (p + 1) as usize }
    } else if s[p] == 0x22 {
        Token { kind: TokenKind::Str, start: p as usize, end: quote_end(s, p + 1) as usize }
    } else {
        let e = word_end(s, p + 1);
        Token { kind: word_kind(s.subrange(p, e)), start: p as usize, end: e as usize }
    }
}

proof fn lemma_skip_space_bounds(s: Seq<u8>, i: int)
    requires
        0 <= i <= s.len(),
    ensures
        i <= skip_space(s, i) <= s.len(),
    decreases s.len() - i,
{
    if 0 <= i < s.len() && space_len(s, i) > 0 {
        lemma_skip_space_bounds(s, i + space_len(s, i));
    }
}

proof fn lemma_run_bounds(s: Seq<u8>, i: int)
    requires
        0 <= i <= s.len(),
    ensures
        i <= word_end(s, i) <= s.len(),
        i <= quote_end(s, i) <= s.len(),
    decreases s.len() - i,
{
    if i < s.len() {
        lemma_run_bounds(s, i + 1);
    }
}

/// Every token lies within the source, after `off`, and only the end
/// token is empty.
pub proof fn lemma_lex_bounds(s: Seq<u8>, off: int)
    requires
        0 <= off <= s.len() <= usize::MAX,
    ensures
        off <= lex_spec(s, off).start <= lex_spec(s, off).end <= s.len(),
        lex_spec(s, off).kind != TokenKind::Eof ==> lex_spec(s, off).start < lex_spec(s, off).end,
        lex_spec(s, off).kind == TokenKind::Eof ==> lex_spec(s, off).end == s.len(),
{
    lemma_skip_space_bounds(s, off);
    let p = skip_space(s, off);
    if p < s.len() {
        lemma_run_bounds(s, p + 1);
    }
}

/// A pull lexer over the bytes of a filter; it allocates nothing.
pub struct Lexer<'a> {
    source: &'a [u8],
    offset: usize,
    peeked: Option<Token>,
}

impl<'a> Lexer<'a> {
    pub closed spec fn source(&self) -> Seq<u8> {
        self.source@
    }

    /// Where the next token is lexed from.
    pub closed spec fn offset(&self) -> int {
        self.offset as int
    }

    /// The token that `next` returns.
    pub open spec fn head(&self) -> Token {
        lex_spec(self.source(), self.offset())
    }

    pub closed spec fn wf(&self) -> bool {
        &&& self.offset <= self.source@.len() <= usize::MAX
        &&& match self.peeked {
            Some(t) => t == lex_spec(self.source@, self.offset as int),
            None => true,
        }
    }

    /// A usable lexer stands within its source.
    pub proof fn lemma_wf(&self)
        requires
            self.wf(),
        ensures
            0 <= self.offset() <= self.source().len() <= usize::MAX,
    {
    }

    /// A lexer at the start of `source`.
    pub fn load(source: &'a str) -> (r: Lexer<'a>)
        ensures
            r.wf(),
            r.source() == source.spec_bytes(),
            r.offset() == 0,
            r.source().len() <= usize::MAX,
    {
        let b = source.as_bytes();
        let _n = b.len();
        Lexer { source: b, offset: 0, peeked: None }
    }

    /// Where the next token is lexed from.
    pub fn pos(&self) -> (r: usize)
        ensures
            r == self.offset(),
    {
        self.offset
    }

    /// Takes the next token.
    pub fn next(&mut self) -> (r: Token)
        requires
            old(self).wf(),
        ensures
            final(self).wf(),
            r == old(self).head(),
            final(self).source() == old(self).source(),
            final(self).offset() <= final(self).source().len(),
            final(self).offset() == r.end,
            old(self).offset() <= r.start <= r.end <= old(self).source().len(),
    {
        let n = self.source.len();
        proof {
            lemma_lex_bounds(self.source@, self.offset as int);
        }
        let t = match self.peeked {
            Some(t) => t,
            None => self.lex_next(),
        };
        self.peeked = None;
        self.offset = t.end;
        t
    }

    /// Takes the next token if it is of `kind`.
    pub fn take_kind(&mut self, kind: TokenKind) -> (r: Option<Token>)
        requires
            old(self).wf(),
        ensures
            final(self).wf(),
            final(self).source() == old(self).source(),
            final(self).offset() <= final(self).source().len(),
            old(self).head().kind == kind ==> r == Some(old(self).head()) && final(self).offset()
                == old(self).head().end,
            old(self).head().kind != kind ==> r is None && final(self).offset() == old(self).offset(),
    {
        if self.peek().kind == kind {
            Some(self.next())
        } else {
            None
        }
    }

    /// The next token, left in place.
    pub fn peek(&mut self) -> (r: Token)
        requires
            old(self).wf(),
        ensures
            final(self).wf(),
            r == old(self).head(),
            final(self).source() == old(self).source(),
            final(self).offset() <= final(self).source().len(),
            final(self).offset() == old(self).offset(),
    {
        match self.peeked {
            Some(t) => t,
            None => {
                let t = self.lex_next();
                self.peeked = Some(t);
                t
            },
        }
    }

    /// Lexes the token at the current offset.
    fn lex_next(&self) -> (r: Token)
        requires
            self.offset <= self.source@.len(),
        ensures
            r == lex_spec(self.source@, self.offset as int),
    {
        let s = self.source;
        let n = s.len();
        let mut p = self.offset;
        while p < n && space_at(s, p) > 0
            invariant
                self.offset <= p <= n,
                n == s@.len(),
                skip_space(s@, p as int) == skip_space(s@, self.offset as int),
            decreases n - p,
        {
            p = p + space_at(s, p);
        }
        if p >= n {
            return Token { kind: TokenKind::Eof, start: p, end: p };
        }
        if p + 1 < n {
            if let Some(kind) = two_byte(s[p], s[p + 1]) {
                return Token { kind, start: p, end: p + 2 };
            }
        }
        if let Some(kind) = one_byte(s[p]) {
            return Token { kind, start: p, end: p + 1 };
        }
        if s[p] == 0x22 {
            let mut e = p + 1;
            while e < n && s[e] != 0x22
                invariant
                    p + 1 <= e <= n,
                    n == s@.len(),
                    quote_end(s@, e as int) == quote_end(s@, p + 1),
                decreases n - e,
            {
                e = e + 1;
            }
            let e = if e < n { e + 1 } else { n };
            return Token { kind: TokenKind::Str, start: p, end: e };
        }
        let mut e = p + 1;
        while e < n && is_word_at(s, e)
            invariant
                p + 1 <= e <= n,
                n == s@.len(),
                word_end(s@, e as int) == word_end(s@, p + 1),
            decreases n - e,
        {
            e = e + 1;
        }
        let kind = word_kind_of(s, p, e);
        Token { kind, start: p, end: e }
    }
}

/// The length of the white-space character at `i`, 0 if there is none.
fn space_at(s: &[u8], i: usize) -> (r: usize)
    requires
        i < s@.len(),
    ensures
        r == space_len(s@, i as int),
{
    let n = s.len();
    let b = s[i];
    if b == 0x20 || (0x09 <= b && b <= 0x0D) {
        1
    } else if b == 0xC2 && n - i > 1 && (s[i + 1] == 0x85 || s[i + 1] == 0xA0) {
        2
    } else if n - i > 2 {
        let c = s[i + 1];
        let d = s[i + 2];
        if (b == 0xE1 && c == 0x9A && d == 0x80)
            || (b == 0xE2 && c == 0x80 && ((0x80 <= d && d <= 0x8A) || d == 0xA8 || d == 0xA9 || d == 0xAF))
            || (b == 0xE2 && c == 0x81 && d == 0x9F)
            || (b == 0xE3 && c == 0x80 && d == 0x80) {
            3
        } else {
            0
        }
    } else {
        0
    }
}

fn is_word_at(s: &[u8], i: usize) -> (r: bool)
    requires
        i < s@.len(),
    ensures
        r == is_word_byte(s@, i as int),
{
    let b = s[i];
    (0x30 <= b && b <= 0x39) || (0x41 <= b && b <= 0x5A) || (0x61 <= b && b <= 0x7A) || b == 0x2E || (b >= 0x80
        && space_at(s, i) == 0)
}

fn two_byte(a: u8, b: u8) -> (r: Option<TokenKind>)
    ensures
        r == two_byte_kind(a, b),
{
    if b == 0x3D && a == 0x3D {
        Some(TokenKind::Cmp(CmpOp::Eq))
    } else if b == 0x3D && a == 0x21 {
        Some(TokenKind::Cmp(CmpOp::Ne))
    } else if b == 0x3D && a == 0x3E {
        Some(TokenKind::Cmp(CmpOp::Ge))
    } else if b == 0x3D && a == 0x3C {
        Some(TokenKind::Cmp(CmpOp::Le))
    } else if a == 0x26 && b == 0x26 {
        Some(TokenKind::Logi(LogiOp::And))
    } else if a == 0x7C && b == 0x7C {
        Some(TokenKind::Logi(LogiOp::Or))
    } else {
        None
    }
}

fn one_byte(a: u8) -> (r: Option<TokenKind>)
    ensures
        r == one_byte_kind(a),
{
    if a == 0x3E {
        Some(TokenKind::Cmp(CmpOp::Gt))
    } else if a == 0x3C {
        Some(TokenKind::Cmp(CmpOp::Lt))
    } else if a == 0x7E {
        Some(TokenKind::Matches)
    } else if a == 0x21 {
        Some(TokenKind::Not)
    } else if a == 0x28 {
        Some(TokenKind::OpenExpr)
    } else if a == 0x29 {
        Some(TokenKind::CloseExpr)
    } else if a == 0x7B {
        Some(TokenKind::OpenList)
    } else if a == 0x7D {
        Some(TokenKind::CloseList)
    } else if a == 0x5B {
        Some(TokenKind::OpenRange)
    } else if a == 0x5D {
        Some(TokenKind::CloseRange)
    } else if a == 0x2C {
        Some(TokenKind::SepList)
    } else if a == 0x3A {
        Some(TokenKind::SepRange)
    } else {
        None
    }
}

fn word_kind_of(s: &[u8], p: usize, e: usize) -> (r: TokenKind)
    requires
        p <= e <= s@.len(),
    ensures
        r == word_kind(s@.subrange(p as int, e as int)),
{
    let w = &s[p..e];
    let n = e - p;
    if n == 2 && w[0] == 0x65 && w[1] == 0x71 {
        TokenKind::Cmp(CmpOp::Eq)
    } else if n == 2 && w[0] == 0x6E && w[1] == 0x65 {
        TokenKind::Cmp(CmpOp::Ne)
    } else if n == 2 && w[0] == 0x67 && w[1] == 0x74 {
        TokenKind::Cmp(CmpOp::Gt)
    } else if n == 2 && w[0] == 0x6C && w[1] == 0x74 {
        TokenKind::Cmp(CmpOp::Lt)
    } else if n == 2 && w[0] == 0x67 && w[1] == 0x65 {
        TokenKind::Cmp(CmpOp::Ge)
    } else if n == 2 && w[0] == 0x6C && w[1] == 0x65 {
        TokenKind::Cmp(CmpOp::Le)
    } else if n == 3 && w[0] == 0x61 && w[1] == 0x6E && w[2] == 0x64 {
        TokenKind::Logi(LogiOp::And)
    } else if n == 2 && w[0] == 0x6F && w[1] == 0x72 {
        TokenKind::Logi(LogiOp::Or)
    } else if n == 3 && w[0] == 0x61 && w[1] == 0x6C && w[2] == 0x6C {
        TokenKind::Match(MatchOp::All)
    } else if n == 3 && w[0] == 0x61 && w[1] == 0x6E && w[2] == 0x79 {
        TokenKind::Match(MatchOp::Any)
    } else if n == 7 && w[0] == 0x6D && w[1] == 0x61 && w[2] == 0x74 && w[3] == 0x63 && w[4] == 0x68
        && w[5] == 0x65 && w[6] == 0x73 {
        TokenKind::Matches
    } else if n == 3 && w[0] == 0x6E && w[1] == 0x6F && w[2] == 0x74 {
        TokenKind::Not
    } else if is_decimal_bytes(w) {
        TokenKind::Nb
    } else {
        TokenKind::Id
    }
}

} // verus!
