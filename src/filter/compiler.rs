use super::engine::{accepts, cmp_holds, eval, match_holds, regex_hit, select, unquote, unquote_bytes, value_hit};
use super::grammar::{re_items, val_items, col_end, lemma_prepend_assoc, lemma_re_items_step, lemma_val_items_step, list_head_spec, prepend, range_end, re_cont, re_item, re_list, val_cont, val_item, val_list, action_spec, expr_spec, filter_spec, filter_meaning, highlight_spec, hl_action, hl_add, hl_expr, hl_item, hl_list, hl_range, hl_rest, hl_take, sem, sem_cmp, sem_match, sval_ok, SExpr, SVal};
use super::lexer::{is_digit, lemma_lex_bounds, lex_spec, CmpOp, Lexer, LogiOp, MatchOp, Token, TokenKind};
use crate::num::Dec;
use vstd::prelude::*;
use vstd::slice::slice_to_vec;
use vstd::string::StringSliceAdditionalSpecFns;

verus! {

#[verifier::external_type_specification]
#[verifier::external_body]
pub struct ExRegex(regex::bytes::Regex);

#[verifier::external_type_specification]
#[verifier::external_body]
pub struct ExRegexError(regex::Error);

/// Whether the pattern written `p` compiles.
pub uninterp spec fn regex_valid(p: Seq<u8>) -> bool;

/// Whether the pattern written `p` matches somewhere in `hay`.
pub uninterp spec fn regex_match(p: Seq<u8>, hay: Seq<u8>) -> bool;

/// Relies on regex::bytes::Regex::new: whether a pattern compiles depends on
/// its text alone.
#[verifier::external_body]
fn compile_regex(p: &[u8]) -> (r: Result<regex::bytes::Regex, regex::Error>)
    ensures
        r is Ok == regex_valid(p@),
{
    regex::bytes::Regex::new(&String::from_utf8_lossy(p))
}

/// A compiled regular expression together with the text it was compiled from.
pub struct Pattern {
    re: regex::bytes::Regex,
    text: Ghost<Seq<u8>>,
}

impl Pattern {
    pub closed spec fn text(&self) -> Seq<u8> {
        self.text@
    }

    /// Compiles the pattern written `p`.
    pub fn new(p: &[u8]) -> (r: Option<Pattern>)
        ensures
            r is Some == regex_valid(p@),
            r is Some ==> r->0.text() == p@,
    {
        match compile_regex(p) {
            Ok(re) => Some(Pattern { re, text: Ghost(p@) }),
            Err(_) => None,
        }
    }
}

/// Relies on regex::bytes::Regex::is_match: whether the pattern that
/// `Pattern::new` compiled matches somewhere in `hay`.
#[verifier::external_body]
pub(crate) fn pattern_matches(p: &Pattern, hay: &[u8]) -> (r: bool)
    ensures
        r == regex_match(p.text(), hay@),
{
    p.re.is_match(hay)
}

/// A column reference: source column `idx`, sliced to the bytes
/// `start..end` of the field.
#[derive(Debug, Clone, Copy, PartialEq, Eq, Structural)]
pub struct Col {
    pub idx: u32,
    pub start: u32,
    pub end: u32,
}

/// A node of the evaluation tree; children are indices into the node arena,
/// `range` is `start..end` into the values or the patterns.
#[derive(Debug, Clone, Copy)]
#[allow(inconsistent_fields)]
pub enum Node {
    Exist(Col),
    Cmp { col: Col, op: CmpOp, m: MatchOp, range: (u32, u32) },
    Match { col: Col, m: MatchOp, range: (u32, u32) },
    Unary(bool, u32),
    Binary { lhs: u32, op: LogiOp, rhs: u32 },
}

/// A value to compare with: a number, or the byte span of a string in the
/// filter's source.
pub enum Value {
    Nb(Dec),
    Str(usize, usize),
}

/// A compiled filter. With no node it accepts every record.
pub struct Filter {
    pub values: Vec<Value>,
    pub regex: Vec<Pattern>,
    pub nodes: Vec<Node>,
    pub source: Vec<u8>,
    pub text: String,
    pub start: u32,
}

/// Whether `range` lies within a vector of `len` elements.
pub open spec fn range_in(range: (u32, u32), len: nat) -> bool {
    range.0 <= range.1 <= len
}

impl Filter {
    /// Whether node `i` refers only to earlier nodes and to existing values
    /// and patterns.
    pub open spec fn node_linked(&self, i: int) -> bool {
        match self.nodes@[i] {
            Node::Exist(_) => true,
            Node::Cmp { range, .. } => range_in(range, self.values@.len()),
            Node::Match { range, .. } => range_in(range, self.regex@.len()),
            Node::Unary(_, ch) => ch < i,
            Node::Binary { lhs, rhs, .. } => lhs < i && rhs < i,
        }
    }

    /// Whether node `i` reads only columns below `nb_col`.
    pub open spec fn node_cols(&self, i: int, nb_col: nat) -> bool {
        match self.nodes@[i] {
            Node::Exist(c) => c.idx < nb_col,
            Node::Cmp { col, .. } => col.idx < nb_col,
            Node::Match { col, .. } => col.idx < nb_col,
            _ => true,
        }
    }

    /// The tree is an arena: children come before their parent, and the
    /// root is a node.
    pub open spec fn wf_links(&self) -> bool {
        &&& self.nodes@.len() <= u32::MAX
        &&& (self.nodes@.len() > 0 ==> self.start < self.nodes@.len())
        &&& forall|i: int| 0 <= i < self.nodes@.len() ==> #[trigger] self.node_linked(i)
    }

    /// Every string value is a span of the source.
    pub open spec fn wf_values(&self) -> bool {
        forall|i: int| 0 <= i < self.values@.len() ==> (match #[trigger] self.values@[i] {
            Value::Str(a, b) => a <= b <= self.source@.len(),
            _ => true,
        })
    }

    /// A filter compiled for a table of `nb_col` columns.
    pub open spec fn wf(&self, nb_col: nat) -> bool {
        &&& self.wf_links()
        &&& self.wf_values()
        &&& self.values@.len() <= u32::MAX
        &&& self.regex@.len() <= u32::MAX
        &&& forall|i: int| 0 <= i < self.nodes@.len() ==> #[trigger] self.node_cols(i, nb_col)
    }

    /// The identity filter.
    pub fn empty() -> (r: Filter)
        ensures
            r.nodes@.len() == 0,
            r.wf(0),
            r.source@.len() == 0,
    {
        Filter {
            values: Vec::new(),
            regex: Vec::new(),
            nodes: Vec::new(),
            source: Vec::new(),
            text: String::new(),
            start: 0,
        }
    }

    /// Whether the filter has no node, and so accepts every record.
    pub fn is_empty(&self) -> (r: bool)
        ensures
            r == (self.nodes@.len() == 0),
    {
        self.nodes.len() == 0
    }

    /// The text the filter was compiled from.
    pub fn text(&self) -> (r: &str)
        ensures
            r@ == self.text@,
    {
        self.text.as_str()
    }
}

} // verus!

verus! {

/// A compile error: the byte span `start..end` of the source it is about,
/// and what was expected there.
#[derive(Debug, Clone, Copy, PartialEq, Eq)]
pub struct CompileError {
    pub start: usize,
    pub end: usize,
    pub msg: &'static str,
}

/// The value of the decimal digits `d`.
pub open spec fn digits_value(d: Seq<u8>) -> nat
    decreases d.len(),
{
    if d.len() == 0 {
        0
    } else {
        digits_value(d.drop_last()) * 10 + (d[d.len() - 1] - 0x30) as nat
    }
}

/// `s` read as an unsigned 32-bit integer: an optional `+`, then at least
/// one decimal digit, with a value that fits.
pub open spec fn u32_of(s: Seq<u8>) -> Option<u32> {
    if unsigned_digits(s).len() > 0 && all_digits(unsigned_digits(s))
        && digits_value(unsigned_digits(s)) <= u32::MAX {
        Some(digits_value(unsigned_digits(s)) as u32)
    } else {
        None
    }
}

/// `s` without a leading `+`.
pub open spec fn unsigned_digits(s: Seq<u8>) -> Seq<u8> {
    if s.len() > 0 && s[0] == 0x2B { s.drop_first() } else { s }
}

pub open spec fn all_digits(d: Seq<u8>) -> bool {
    forall|i: int| 0 <= i < d.len() ==> is_digit(#[trigger] d[i])
}

/// Reads `s` as an unsigned 32-bit integer.
pub fn parse_u32(s: &[u8]) -> (r: Option<u32>)
    ensures
        r == u32_of(s@),
{
    let n = s.len();
    let from: usize = if n > 0 && s[0] == 0x2B { 1 } else { 0 };
    let ghost d = unsigned_digits(s@);
    assert(d =~= s@.subrange(from as int, n as int));
    if from == n {
        return None;
    }
    let mut v: u64 = 0;
    let mut i: usize = from;
    while i < n
        invariant
            from <= i <= n == s@.len(),
            d == unsigned_digits(s@),
            d =~= s@.subrange(from as int, n as int),
            forall|k: int| from <= k < i ==> is_digit(#[trigger] s@[k]),
            v == digits_value(s@.subrange(from as int, i as int)),
            v <= u32::MAX,
        decreases n - i,
    {
        let c = s[i];
        if c < 0x30 || c > 0x39 {
            proof {
                assert(d[i - from] == c);
                assert(!is_digit(d[i - from]));
                assert(!all_digits(d));
            }
            return None;
        }
        assert(s@.subrange(from as int, i + 1).drop_last() =~= s@.subrange(from as int, i as int));
        let nv = v * 10 + (c - 0x30) as u64;
        if nv > u32::MAX as u64 {
            proof {
                let t = s@.subrange(from as int, i + 1);
                assert(digits_value(t) == nv);
                if all_digits(d) {
                    lemma_digits_value_grows(d, i + 1 - from);
                    assert(d.subrange(0, i + 1 - from) =~= t);
                    assert(digits_value(d) > u32::MAX);
                }
            }
            return None;
        }
        v = nv;
        i = i + 1;
    }
    assert(s@.subrange(from as int, n as int) =~= d);
    Some(v as u32)
}

/// The value of a prefix of digits bounds the value of the whole.
pub(crate) proof fn lemma_digits_value_grows(d: Seq<u8>, k: int)
    requires
        0 <= k <= d.len(),
        forall|i: int| 0 <= i < d.len() ==> is_digit(#[trigger] d[i]),
    ensures
        digits_value(d.subrange(0, k)) <= digits_value(d),
    decreases d.len() - k,
{
    if k < d.len() {
        lemma_digits_value_grows(d, k + 1);
        assert(d.subrange(0, k + 1).drop_last() =~= d.subrange(0, k));
    } else {
        assert(d.subrange(0, k) =~= d);
    }
}

} // verus!

verus! {

/// The bytes of token `t` of `s`.
pub open spec fn tok_text(s: Seq<u8>, t: Token) -> Seq<u8> {
    s.subrange(t.start as int, t.end as int)
}

/// `x`, held to `u32`.
pub open spec fn sat32(x: int) -> u32 {
    if x <= u32::MAX { x as u32 } else { u32::MAX }
}

/// The byte range that a written range means: `[S]`, `[S:E]` with
/// `S <= E`, `[S~L]`, `[S~]`, `[~L]` or `[:L]`; `None` for any other form.
/// `u32::MAX` stands for no end.
pub open spec fn range_table(start: Option<u32>, sep: Option<bool>, end: Option<u32>) -> Option<(u32, u32)> {
    if start is Some && sep is None && end is None {
        Some((start->0, sat32(start->0 + 1)))
    } else if start is Some && sep == Some(true) && end is Some {
        Some((start->0, sat32(start->0 + end->0)))
    } else if start is Some && sep == Some(true) && end is None {
        Some((start->0, u32::MAX))
    } else if start is None && sep is Some && end is Some {
        Some((0, end->0))
    } else if start is Some && sep == Some(false) && end is Some && start->0 <= end->0 {
        Some((start->0, end->0))
    } else {
        None
    }
}

/// The range written at `off` of `s`, if any: the whole field when no `[`
/// comes next, else the form between the brackets, `None` when it is not
/// one of the accepted forms.
pub open spec fn range_spec(s: Seq<u8>, off: int) -> Option<(u32, u32)> {
    let t0 = lex_spec(s, off);
    if t0.kind != TokenKind::OpenRange {
        Some((0, u32::MAX))
    } else {
        let t1 = lex_spec(s, t0.end as int);
        let start = if t1.kind == TokenKind::Nb { u32_of(tok_text(s, t1)) } else { None };
        let t2 = if t1.kind == TokenKind::Nb { lex_spec(s, t1.end as int) } else { t1 };
        let sep = if t2.kind == TokenKind::Matches {
            Some(true)
        } else if t2.kind == TokenKind::SepRange {
            Some(false)
        } else {
            None
        };
        let t3 = if sep is Some { lex_spec(s, t2.end as int) } else { t2 };
        let end = if t3.kind == TokenKind::Nb { u32_of(tok_text(s, t3)) } else { None };
        let t4 = if t3.kind == TokenKind::Nb { lex_spec(s, t3.end as int) } else { t3 };
        if (t1.kind == TokenKind::Nb && start is None) || (t3.kind == TokenKind::Nb && end is None) || t4.kind
            != TokenKind::CloseRange {
            None
        } else {
            range_table(start, sep, end)
        }
    }
}

/// The column reference written at `off` of `s` for a table of `nb_col`
/// columns: an index below `nb_col`, then an optional range.
pub open spec fn col_spec(s: Seq<u8>, off: int, nb_col: nat) -> Option<Col> {
    let t = lex_spec(s, off);
    if t.kind == TokenKind::Nb && u32_of(tok_text(s, t)) is Some && u32_of(tok_text(s, t))->0 < nb_col
        && range_spec(s, t.end as int) is Some {
        let r = range_spec(s, t.end as int)->0;
        Some(Col { idx: u32_of(tok_text(s, t))->0, start: r.0, end: r.1 })
    } else {
        None
    }
}

/// Whether `a` is a prefix of `b`.
pub open spec fn prefix_of<T>(a: Seq<T>, b: Seq<T>) -> bool {
    &&& a.len() <= b.len()
    &&& forall|i: int| 0 <= i < a.len() ==> a[i] == b[i]
}

/// What a stored value stands for.
pub open spec fn sval_of(source: Seq<u8>, v: Value) -> SVal {
    match v {
        Value::Nb(d) => SVal::Num(d.text()),
        Value::Str(a, b) => SVal::Text(unquote(source.subrange(a as int, b as int))),
    }
}

/// Whether `e` reports that the filter has more parts than indices can
/// number.
pub open spec fn too_long(e: CompileError) -> bool {
    e.msg == "Filter too long"
}

/// Growing the arena and the value and pattern lists leaves the meaning of
/// existing nodes unchanged.
pub proof fn lemma_eval_stable(f1: &Filter, f2: &Filter, i: int, rec: Seq<Seq<u8>>)
    requires
        f1.wf_links(),
        prefix_of(f1.nodes@, f2.nodes@),
        prefix_of(f1.values@, f2.values@),
        prefix_of(f1.regex@, f2.regex@),
        f1.source@ == f2.source@,
        0 <= i < f1.nodes@.len(),
    ensures
        eval(f2, i, rec) == eval(f1, i, rec),
    decreases i,
{
    assert(f1.node_linked(i));
    assert(f2.nodes@[i] == f1.nodes@[i]);
    match f1.nodes@[i] {
        Node::Unary(_, ch) => {
            lemma_eval_stable(f1, f2, ch as int, rec);
        },
        Node::Binary { lhs, rhs, .. } => {
            lemma_eval_stable(f1, f2, lhs as int, rec);
            lemma_eval_stable(f1, f2, rhs as int, rec);
        },
        Node::Cmp { col, op, m, range } => {
            assert forall|k: int| range.0 <= k < range.1 implies value_hit(f2, rec, col, op, k) == value_hit(f1, rec, col, op, k) by {
                assert(f2.values@[k] == f1.values@[k]);
            }
            assert(cmp_holds(f2, rec, col, op, m, range) == cmp_holds(f1, rec, col, op, m, range));
        },
        Node::Match { col, m, range } => {
            assert forall|k: int| range.0 <= k < range.1 implies regex_hit(f2, rec, col, k) == regex_hit(f1, rec, col, k) by {
                assert(f2.regex@[k] == f1.regex@[k]);
            }
            assert(match_holds(f2, rec, col, m, range) == match_holds(f1, rec, col, m, range));
        },
        _ => {},
    }
}

/// Values `n0..n1` that stand for `vs` accept a field as the written values
/// do.
proof fn lemma_cmp_meaning(f: &Filter, rec: Seq<Seq<u8>>, col: Col, op: CmpOp, m: MatchOp, vs: Seq<SVal>, n0: int)
    requires
        0 <= n0,
        n0 + vs.len() <= f.values@.len() <= u32::MAX,
        forall|j: int| 0 <= j < vs.len() ==> sval_of(f.source@, #[trigger] f.values@[n0 + j]) == vs[j],
    ensures
        cmp_holds(f, rec, col, op, m, (n0 as u32, (n0 + vs.len()) as u32)) == sem_cmp(select(rec, col), op, m, vs),
{
    let x = select(rec, col);
    let n1 = n0 + vs.len();
    assert forall|j: int| 0 <= j < vs.len() implies value_hit(f, rec, col, op, n0 + j) == sval_ok(x, op, vs[j]) by {
        assert(sval_of(f.source@, f.values@[n0 + j]) == vs[j]);
    }
    let range = (n0 as u32, n1 as u32);
    match m {
        MatchOp::All => {
            if cmp_holds(f, rec, col, op, m, range) {
                assert forall|j: int| 0 <= j < vs.len() implies #[trigger] sval_ok(x, op, vs[j]) by {
                    assert(value_hit(f, rec, col, op, n0 + j));
                }
            }
            if sem_cmp(x, op, m, vs) {
                assert forall|k: int| range.0 <= k < range.1 implies #[trigger] value_hit(f, rec, col, op, k) by {
                    assert(sval_ok(x, op, vs[k - n0]));
                }
            }
        },
        MatchOp::Any => {
            if cmp_holds(f, rec, col, op, m, range) {
                let k = choose|k: int| range.0 <= k < range.1 && #[trigger] value_hit(f, rec, col, op, k);
                assert(sval_ok(x, op, vs[k - n0]));
            }
            if sem_cmp(x, op, m, vs) {
                let j = choose|j: int| 0 <= j < vs.len() && #[trigger] sval_ok(x, op, vs[j]);
                assert(value_hit(f, rec, col, op, n0 + j));
            }
        },
    }
}

/// Patterns `n0..n1` compiled from `ps` match a field as the written
/// patterns do.
proof fn lemma_match_meaning(f: &Filter, rec: Seq<Seq<u8>>, col: Col, m: MatchOp, ps: Seq<Seq<u8>>, n0: int)
    requires
        0 <= n0,
        n0 + ps.len() <= f.regex@.len() <= u32::MAX,
        forall|j: int| 0 <= j < ps.len() ==> (#[trigger] f.regex@[n0 + j]).text() == ps[j],
    ensures
        match_holds(f, rec, col, m, (n0 as u32, (n0 + ps.len()) as u32)) == sem_match(select(rec, col), m, ps),
{
    let x = select(rec, col);
    let n1 = n0 + ps.len();
    assert forall|j: int| 0 <= j < ps.len() implies regex_hit(f, rec, col, n0 + j) == regex_match(ps[j], x) by {
        assert(f.regex@[n0 + j].text() == ps[j]);
    }
    let range = (n0 as u32, n1 as u32);
    match m {
        MatchOp::All => {
            if match_holds(f, rec, col, m, range) {
                assert forall|j: int| 0 <= j < ps.len() implies #[trigger] regex_match(ps[j], x) by {
                    assert(regex_hit(f, rec, col, n0 + j));
                }
            }
            if sem_match(x, m, ps) {
                assert forall|k: int| range.0 <= k < range.1 implies #[trigger] regex_hit(f, rec, col, k) by {
                    assert(regex_match(ps[k - n0], x));
                }
            }
        },
        MatchOp::Any => {
            if match_holds(f, rec, col, m, range) {
                let k = choose|k: int| range.0 <= k < range.1 && #[trigger] regex_hit(f, rec, col, k);
                assert(regex_match(ps[k - n0], x));
            }
            if sem_match(x, m, ps) {
                let j = choose|j: int| 0 <= j < ps.len() && #[trigger] regex_match(ps[j], x);
                assert(regex_hit(f, rec, col, n0 + j));
            }
        },
    }
}

/// A node `Unary(neg, idx)` pushed onto `f1` means the negation of `inner`
/// when `neg`, else `inner` itself.
proof fn lemma_unary_meaning(f1: &Filter, f2: &Filter, idx: int, neg: bool, inner: SExpr, out: SExpr)
    requires
        f1.wf_links(),
        0 <= idx < f1.nodes@.len(),
        f2.nodes@ == f1.nodes@.push(Node::Unary(neg, idx as u32)),
        f2.values@ == f1.values@,
        f2.regex@ == f1.regex@,
        f2.source@ == f1.source@,
        forall|rec: Seq<Seq<u8>>| #[trigger] eval(f1, idx, rec) == sem(inner, rec),
        out == (if neg { SExpr::Not(Box::new(inner)) } else { SExpr::Group(Box::new(inner)) }),
    ensures
        forall|rec: Seq<Seq<u8>>| #[trigger] eval(f2, f1.nodes@.len() as int, rec) == sem(out, rec),
{
    assert forall|rec: Seq<Seq<u8>>| #[trigger] eval(f2, f1.nodes@.len() as int, rec) == sem(out, rec) by {
        lemma_eval_stable(f1, f2, idx, rec);
        assert(eval(f1, idx, rec) == sem(inner, rec));
    }
}

/// A node `Binary { lhs, op, rhs }` pushed onto `f2` means `l op r`.
proof fn lemma_binary_meaning(f1: &Filter, f2: &Filter, f3: &Filter, lhs: int, rhs: int, op: LogiOp, l: SExpr, r: SExpr)
    requires
        f1.wf_links(),
        f2.wf_links(),
        0 <= lhs < f1.nodes@.len(),
        0 <= rhs < f2.nodes@.len(),
        prefix_of(f1.nodes@, f2.nodes@),
        prefix_of(f1.values@, f2.values@),
        prefix_of(f1.regex@, f2.regex@),
        f2.source@ == f1.source@,
        f3.nodes@ == f2.nodes@.push(Node::Binary { lhs: lhs as u32, op, rhs: rhs as u32 }),
        f3.values@ == f2.values@,
        f3.regex@ == f2.regex@,
        f3.source@ == f2.source@,
        forall|rec: Seq<Seq<u8>>| #[trigger] eval(f1, lhs, rec) == sem(l, rec),
        forall|rec: Seq<Seq<u8>>| #[trigger] eval(f2, rhs, rec) == sem(r, rec),
    ensures
        forall|rec: Seq<Seq<u8>>| #[trigger] eval(f3, f2.nodes@.len() as int, rec) == sem(SExpr::Bin(Box::new(l), op, Box::new(r)), rec),
{
    assert forall|rec: Seq<Seq<u8>>| #[trigger] eval(f3, f2.nodes@.len() as int, rec) == sem(SExpr::Bin(Box::new(l), op, Box::new(r)), rec) by {
        lemma_eval_stable(f1, f2, lhs, rec);
        lemma_eval_stable(f2, f3, lhs, rec);
        lemma_eval_stable(f2, f3, rhs, rec);
        assert(eval(f1, lhs, rec) == sem(l, rec));
        assert(eval(f2, rhs, rec) == sem(r, rec));
    }
}

/// An error at the span of `t`.
fn err_at(t: Token, msg: &'static str) -> (r: CompileError)
    ensures
        r.start == t.start && r.end == t.end && r.msg == msg,
{
    CompileError { start: t.start, end: t.end, msg }
}

struct Compiler<'a> {
    filter: Filter,
    lexer: Lexer<'a>,
    nb_col: usize,
}

impl<'a> Compiler<'a> {
    spec fn inv(&self) -> bool {
        &&& self.lexer.wf()
        &&& self.filter.wf(self.nb_col as nat)
        &&& self.filter.start == 0
        &&& self.filter.source@ == self.lexer.source()
    }

    /// What every step keeps: the source, the column count, and a position
    /// that only moves forward.
    spec fn step(&self, old: &Self) -> bool {
        &&& self.inv()
        &&& self.nb_col == old.nb_col
        &&& self.lexer.source() == old.lexer.source()
        &&& self.lexer.offset() >= old.lexer.offset()
        &&& self.filter.nodes@.len() >= old.filter.nodes@.len()
        &&& self.filter.text == old.filter.text
        &&& prefix_of(old.filter.nodes@, self.filter.nodes@)
        &&& prefix_of(old.filter.values@, self.filter.values@)
        &&& prefix_of(old.filter.regex@, self.filter.regex@)
    }

    /// How many nodes, values and patterns the filter holds.
    spec fn total(&self) -> int {
        self.filter.nodes@.len() + self.filter.values@.len() + self.filter.regex@.len() as int
    }

    /// Two slots per source byte read, less those used: each byte read pays
    /// for what parsing it adds.
    spec fn budget(&self) -> int {
        2 * self.lexer.offset() - self.total()
    }

    /// No arena can fill up: the source is short and the budget holds.
    spec fn roomy(&self) -> bool {
        &&& self.budget() >= 0
        &&& 2 * self.lexer.source().len() < u32::MAX
    }

    spec fn err_ok(&self, e: CompileError) -> bool {
        e.start <= e.end <= self.lexer.source().len()
    }

    /// The bytes of the token `t`.
    fn text(&self, t: Token) -> (r: &[u8])
        requires
            self.inv(),
            t.start <= t.end <= self.lexer.source().len(),
        ensures
            r@ == self.lexer.source().subrange(t.start as int, t.end as int),
    {
        &self.filter.source.as_slice()[t.start..t.end]
    }

    /// Takes the next token, which must be of `kind`.
    fn expect(&mut self, kind: TokenKind, msg: &'static str) -> (r: Result<Token, CompileError>)
        requires
            old(self).inv(),
        ensures
            final(self).step(old(self)),
            final(self).filter == old(self).filter,
            r is Err ==> final(self).err_ok(r->Err_0),
            r is Ok ==> r->Ok_0.kind == kind,
            r is Ok == (old(self).lexer.head().kind == kind),
            final(self).lexer.offset() == old(self).lexer.head().end,
            r is Ok && kind != TokenKind::Eof ==> final(self).lexer.offset() > old(self).lexer.offset(),
            r is Err ==> r->Err_0.msg == msg,
    {
        proof {
            self.lexer.lemma_wf();
            lemma_lex_bounds(self.lexer.source(), self.lexer.offset());
        }
        let t = self.lexer.next();
        if t.kind != kind {
            Err(err_at(t, msg))
        } else {
            Ok(t)
        }
    }

    /// Appends `node` to the arena and returns its index.
    fn add_node(&mut self, node: Node) -> (r: Result<u32, CompileError>)
        requires
            old(self).inv(),
            match node {
                Node::Exist(c) => c.idx < old(self).nb_col,
                Node::Cmp { col, range, .. } => col.idx < old(self).nb_col && range_in(range, old(self).filter.values@.len()),
                Node::Match { col, range, .. } => col.idx < old(self).nb_col && range_in(range, old(self).filter.regex@.len()),
                Node::Unary(_, ch) => ch < old(self).filter.nodes@.len(),
                Node::Binary { lhs, rhs, .. } => lhs < old(self).filter.nodes@.len() && rhs < old(self).filter.nodes@.len(),
            },
        ensures
            final(self).step(old(self)),
            final(self).lexer == old(self).lexer,
            final(self).filter.values@ == old(self).filter.values@,
            final(self).filter.regex@ == old(self).filter.regex@,
            r is Err ==> final(self).err_ok(r->Err_0),
            r is Ok ==> r->Ok_0 == old(self).filter.nodes@.len() && final(self).filter.nodes@ == old(self).filter.nodes@.push(node),
            r is Err ==> too_long(r->Err_0),
            r is Err ==> final(self).filter == old(self).filter,
            old(self).filter.nodes@.len() < u32::MAX ==> r is Ok,
    {
        proof {
            self.lexer.lemma_wf();
        }
        let n = self.filter.nodes.len();
        if n >= u32::MAX as usize {
            let p = self.lexer.pos();
            return Err(CompileError { start: p, end: p, msg: "Filter too long" });
        }
        self.filter.nodes.push(node);
        proof {
            assert forall|i: int| 0 <= i < self.filter.nodes@.len() implies #[trigger] self.filter.node_linked(i) by {
                if i < n {
                    assert(old(self).filter.node_linked(i));
                }
            }
            assert forall|i: int| 0 <= i < self.filter.nodes@.len() implies #[trigger] self.filter.node_cols(i, self.nb_col as nat) by {
                if i < n {
                    assert(old(self).filter.node_cols(i, self.nb_col as nat));
                }
            }
        }
        Ok(n as u32)
    }

    /// An optional byte range after a column: `[S]`, `[S:E]`, `[S~L]`,
    /// `[S~]`, `[~L]` or `[:L]`; without one, the whole field.
    fn parse_range(&mut self) -> (r: Result<(u32, u32), CompileError>)
        requires
            old(self).inv(),
        ensures
            final(self).step(old(self)),
            final(self).filter.nodes@ == old(self).filter.nodes@,
            final(self).filter.values@ == old(self).filter.values@,
            final(self).filter.regex@ == old(self).filter.regex@,
            r is Err ==> final(self).err_ok(r->Err_0),
            r is Ok ==> r->Ok_0.0 <= r->Ok_0.1,
            r is Ok == range_spec(old(self).lexer.source(), old(self).lexer.offset()) is Some,
            r is Ok ==> r->Ok_0 == range_spec(old(self).lexer.source(), old(self).lexer.offset())->0,
            r is Ok ==> final(self).lexer.offset() == range_end(old(self).lexer.source(), old(self).lexer.offset()),
            r is Err ==> !too_long(r->Err_0),
    {
        let ghost src = self.lexer.source();
        proof {
            self.lexer.lemma_wf();
            lemma_lex_bounds(self.lexer.source(), self.lexer.offset());
        }
        let t = self.lexer.peek();
        if t.kind != TokenKind::OpenRange {
            return Ok((0, u32::MAX));
        }
        self.lexer.next();
        proof {
            self.lexer.lemma_wf();
            lemma_lex_bounds(self.lexer.source(), self.lexer.offset());
        }
        let t1 = self.lexer.peek();
        let span_start = t1.start;
        let start: Option<u32> = if t1.kind == TokenKind::Nb {
            match parse_u32(self.text(t1)) {
                Some(v) => Some(v),
                None => return Err(err_at(t1, "Expect range start")),
            }
        } else {
            None
        };
        if t1.kind == TokenKind::Nb {
            self.lexer.next();
        }
        proof {
            self.lexer.lemma_wf();
            lemma_lex_bounds(self.lexer.source(), self.lexer.offset());
        }
        let t2 = self.lexer.peek();
        let sep: Option<bool> = if t2.kind == TokenKind::Matches {
            Some(true)
        } else if t2.kind == TokenKind::SepRange {
            Some(false)
        } else {
            None
        };
        if sep.is_some() {
            self.lexer.next();
        }
        proof {
            self.lexer.lemma_wf();
            lemma_lex_bounds(self.lexer.source(), self.lexer.offset());
        }
        let t3 = self.lexer.peek();
        let end: Option<u32> = if t3.kind == TokenKind::Nb {
            match parse_u32(self.text(t3)) {
                Some(v) => Some(v),
                None => return Err(err_at(t3, "Expect range end")),
            }
        } else {
            None
        };
        if t3.kind == TokenKind::Nb {
            self.lexer.next();
        }
        proof {
            self.lexer.lemma_wf();
            lemma_lex_bounds(self.lexer.source(), self.lexer.offset());
        }
        let span_end = self.lexer.peek().end;
        self.expect(TokenKind::CloseRange, "Expect ]")?;
        let invalid = CompileError { start: span_start, end: span_end, msg: "Invalid range" };
        match start {
            Some(a) => match sep {
                None => match end {
                    None => Ok((a, a.saturating_add(1))),
                    Some(_) => Err(invalid),
                },
                Some(true) => match end {
                    Some(l) => Ok((a, a.saturating_add(l))),
                    None => Ok((a, u32::MAX)),
                },
                Some(false) => match end {
                    Some(e) => if a <= e {
                        Ok((a, e))
                    } else {
                        Err(invalid)
                    },
                    None => Err(invalid),
                },
            },
            None => match (sep, end) {
                (Some(_), Some(l)) => Ok((0, l)),
                _ => Err(invalid),
            },
        }
    }

    /// An optional `all` or `any`, then an opening brace when there was one.
    /// Returns the combiner and whether a list follows.
    fn list_head(&mut self) -> (r: Result<(MatchOp, bool), CompileError>)
        requires
            old(self).inv(),
        ensures
            final(self).step(old(self)),
            final(self).filter.nodes@ == old(self).filter.nodes@,
            final(self).filter.values@ == old(self).filter.values@,
            final(self).filter.regex@ == old(self).filter.regex@,
            r is Err ==> final(self).err_ok(r->Err_0),
            r is Ok == list_head_spec(old(self).lexer.source(), old(self).lexer.offset()) is Some,
            r is Ok ==> list_head_spec(old(self).lexer.source(), old(self).lexer.offset())->0 == (
                r->Ok_0.0,
                r->Ok_0.1,
                final(self).lexer.offset(),
            ),
            r is Err ==> !too_long(r->Err_0),
    {
        proof {
            self.lexer.lemma_wf();
            lemma_lex_bounds(self.lexer.source(), self.lexer.offset());
        }
        let t = self.lexer.peek();
        let m = match t.kind {
            TokenKind::Match(op) => {
                self.lexer.next();
                Some(op)
            },
            _ => None,
        };
        proof {
            self.lexer.lemma_wf();
            lemma_lex_bounds(self.lexer.source(), self.lexer.offset());
        }
        let t = self.lexer.peek();
        let is_list = if t.kind == TokenKind::OpenList {
            self.lexer.next();
            true
        } else if m.is_some() {
            return Err(err_at(t, "Expect {"));
        } else {
            false
        };
        let m = match m {
            Some(op) => op,
            None => MatchOp::All,
        };
        Ok((m, is_list))
    }

    /// One value: a number, or a quoted or bare string.
    fn parse_value(&mut self) -> (r: Result<(), CompileError>)
        requires
            old(self).inv(),
        ensures
            final(self).step(old(self)),
            final(self).filter.nodes@ == old(self).filter.nodes@,
            final(self).filter.regex@ == old(self).filter.regex@,
            r is Ok ==> final(self).filter.values@.len() == old(self).filter.values@.len() + 1,
            r is Err ==> final(self).filter.values@ == old(self).filter.values@,
            r is Err ==> final(self).err_ok(r->Err_0),
            ({
                let t = lex_spec(old(self).lexer.source(), old(self).lexer.offset());
                let item = val_item(old(self).lexer.source(), t);
                &&& r is Ok ==> item is Some && final(self).lexer.offset() == t.end
                    && final(self).filter.values@ == old(self).filter.values@.push(final(self).filter.values@.last())
                    && sval_of(old(self).lexer.source(), final(self).filter.values@.last()) == item->0
                &&& item is None ==> r is Err
                &&& r is Err && item is Some ==> too_long(r->Err_0)
            }),
            r is Ok ==> final(self).budget() >= old(self).budget() + 1,
            old(self).filter.values@.len() < u32::MAX && r is Err ==> !too_long(r->Err_0),
    {
        proof {
            self.lexer.lemma_wf();
            lemma_lex_bounds(self.lexer.source(), self.lexer.offset());
        }
        let t = self.lexer.next();
        if self.filter.values.len() >= u32::MAX as usize {
            return Err(err_at(t, "Filter too long"));
        }
        let v = match t.kind {
            TokenKind::Nb => match Dec::parse(self.text(t)) {
                Some(d) => Value::Nb(d),
                None => Value::Str(t.start, t.end),
            },
            TokenKind::Str | TokenKind::Id => Value::Str(t.start, t.end),
            _ => return Err(err_at(t, "Expect a value")),
        };
        let ghost old_values = self.filter.values@;
        self.filter.values.push(v);
        proof {
            assert forall|i: int| 0 <= i < self.filter.values@.len() implies (match #[trigger] self.filter.values@[i] {
                Value::Str(a, b) => a <= b <= self.filter.source@.len(),
                _ => true,
            }) by {
                if i < old_values.len() {
                    assert(old_values[i] == self.filter.values@[i]);
                }
            }
            assert forall|i: int| 0 <= i < self.filter.nodes@.len() implies #[trigger] self.filter.node_linked(i) by {
                assert(old(self).filter.node_linked(i));
            }
            assert forall|i: int| 0 <= i < self.filter.nodes@.len() implies #[trigger] self.filter.node_cols(i, self.nb_col as nat) by {
                assert(old(self).filter.node_cols(i, self.nb_col as nat));
            }
        }
        Ok(())
    }

    /// One regular expression: a quoted or bare word.
    fn parse_regex(&mut self) -> (r: Result<(), CompileError>)
        requires
            old(self).inv(),
        ensures
            final(self).step(old(self)),
            final(self).filter.nodes@ == old(self).filter.nodes@,
            final(self).filter.values@ == old(self).filter.values@,
            r is Ok ==> final(self).filter.regex@.len() == old(self).filter.regex@.len() + 1,
            r is Err ==> final(self).filter.regex@ == old(self).filter.regex@,
            r is Err ==> final(self).err_ok(r->Err_0),
            ({
                let t = lex_spec(old(self).lexer.source(), old(self).lexer.offset());
                let item = re_item(old(self).lexer.source(), t);
                &&& r is Ok ==> item is Some && final(self).lexer.offset() == t.end
                    && final(self).filter.regex@ == old(self).filter.regex@.push(final(self).filter.regex@.last())
                    && final(self).filter.regex@.last().text() == item->0
                &&& item is None ==> r is Err
                &&& r is Err && item is Some ==> too_long(r->Err_0)
            }),
            r is Ok ==> final(self).budget() >= old(self).budget() + 1,
            old(self).filter.regex@.len() < u32::MAX && r is Err ==> !too_long(r->Err_0),
    {
        proof {
            self.lexer.lemma_wf();
            lemma_lex_bounds(self.lexer.source(), self.lexer.offset());
        }
        let t = self.lexer.next();
        if self.filter.regex.len() >= u32::MAX as usize {
            return Err(err_at(t, "Filter too long"));
        }
        if t.kind != TokenKind::Str && t.kind != TokenKind::Id {
            return Err(err_at(t, "Expect regex"));
        }
        let p = match Pattern::new(unquote_bytes(self.text(t))) {
            Some(p) => p,
            None => return Err(err_at(t, "Invalid regex")),
        };
        self.filter.regex.push(p);
        proof {
            assert forall|i: int| 0 <= i < self.filter.nodes@.len() implies #[trigger] self.filter.node_linked(i) by {
                assert(old(self).filter.node_linked(i));
            }
            assert forall|i: int| 0 <= i < self.filter.nodes@.len() implies #[trigger] self.filter.node_cols(i, self.nb_col as nat) by {
                assert(old(self).filter.node_cols(i, self.nb_col as nat));
            }
        }
        Ok(())
    }

    /// A value or a braced list of values, with its combiner; returns the
    /// range of the values it added.
    fn list_values(&mut self) -> (r: Result<(MatchOp, (u32, u32)), CompileError>)
        requires
            old(self).inv(),
        ensures
            final(self).step(old(self)),
            final(self).filter.nodes@ == old(self).filter.nodes@,
            final(self).filter.regex@ == old(self).filter.regex@,
            r is Ok ==> range_in(r->Ok_0.1, final(self).filter.values@.len()),
            r is Err ==> final(self).err_ok(r->Err_0),
            ({
                let src = old(self).lexer.source();
                let ol = val_list(src, old(self).lexer.offset());
                let l = ol->0;
                let n0 = old(self).filter.values@.len();
                &&& r is Ok ==> ol is Some && r->Ok_0.0 == l.0 && final(self).lexer.offset() == l.2
                    && r->Ok_0.1 == (n0 as u32, final(self).filter.values@.len() as u32)
                    && final(self).filter.values@.len() == n0 + l.1.len()
                    && final(self).filter.values@.subrange(0, n0 as int) == old(self).filter.values@
                    && forall|j: int| 0 <= j < l.1.len() ==> sval_of(src, final(self).filter.values@[n0 + j]) == l.1[j]
                &&& ol is None ==> r is Err
                &&& r is Err && ol is Some ==> too_long(r->Err_0)
            }),
            r is Ok ==> final(self).budget() >= old(self).budget(),
            old(self).roomy() && r is Err ==> !too_long(r->Err_0),
    {
        let ghost src = self.lexer.source();
        let ghost n0 = self.filter.values@.len();
        let (m, is_list) = self.list_head()?;
        let ghost h2 = self.lexer.offset();
        let start = self.filter.values.len() as u32;
        proof {
            self.lexer.lemma_wf();
        }
        self.parse_value()?;
        let ghost first = sval_of(src, self.filter.values@.last());
        let ghost prefix: Seq<SVal> = seq![first];
        proof {
            lemma_val_items_step(src, h2);
            assert(self.filter.values@.subrange(0, n0 as int) =~= old(self).filter.values@);
        }
        loop
            invariant
                self.step(old(self)),
                self.lexer.source() == src,
                src == old(self).lexer.source(),
                list_head_spec(src, old(self).lexer.offset()) == Some((m, is_list, h2)),
                self.filter.nodes@ == old(self).filter.nodes@,
                self.filter.regex@ == old(self).filter.regex@,
                start == n0,
                n0 == old(self).filter.values@.len(),
                self.filter.values@.len() == n0 + prefix.len(),
                prefix.len() >= 1,
                self.budget() >= old(self).budget() + 1,
                self.filter.values@.subrange(0, n0 as int) == old(self).filter.values@,
                forall|j: int| 0 <= j < prefix.len() ==> sval_of(src, self.filter.values@[n0 + j]) == prefix[j],
                val_items(src, h2) == prepend(prefix, val_cont(src, self.lexer.offset())),
            ensures
                lex_spec(src, self.lexer.offset()).kind != TokenKind::SepList,
            decreases self.lexer.source().len() - self.lexer.offset(),
        {
            proof {
                self.lexer.lemma_wf();
                lemma_lex_bounds(self.lexer.source(), self.lexer.offset());
            }
            let ghost q = self.lexer.offset();
            let ghost before = self.filter.values@;
            if self.lexer.take_kind(TokenKind::SepList).is_some() {
                proof {
                    self.lexer.lemma_wf();
                }
                let ghost p = self.lexer.offset();
                self.parse_value()?;
                proof {
                    self.lexer.lemma_wf();
                    lemma_val_items_step(src, p);
                    let v = sval_of(src, self.filter.values@.last());
                    lemma_prepend_assoc(prefix, seq![v], val_cont(src, self.lexer.offset()));
                    assert forall|j: int| 0 <= j < prefix.len() + 1 implies sval_of(src, self.filter.values@[n0 + j]) == (prefix + seq![v])[j] by {
                        if j < prefix.len() {
                            assert(self.filter.values@[n0 + j] == before[n0 + j]);
                        }
                    }
                    assert(self.filter.values@.subrange(0, n0 as int) =~= before.subrange(0, n0 as int));
                    prefix = prefix + seq![v];
                }
            } else {
                break;
            }
        }
        proof {
            assert(prefix + Seq::<SVal>::empty() =~= prefix);
        }
        if is_list {
            self.expect(TokenKind::CloseList, "Expect }")?;
        }
        Ok((m, (start, self.filter.values.len() as u32)))
    }

    /// A pattern or a braced list of patterns, with its combiner; returns
    /// the range of the patterns it added.
    fn list_regex(&mut self) -> (r: Result<(MatchOp, (u32, u32)), CompileError>)
        requires
            old(self).inv(),
        ensures
            final(self).step(old(self)),
            final(self).filter.nodes@ == old(self).filter.nodes@,
            final(self).filter.values@ == old(self).filter.values@,
            r is Ok ==> range_in(r->Ok_0.1, final(self).filter.regex@.len()),
            r is Err ==> final(self).err_ok(r->Err_0),
            ({
                let src = old(self).lexer.source();
                let ol = re_list(src, old(self).lexer.offset());
                let l = ol->0;
                let n0 = old(self).filter.regex@.len();
                &&& r is Ok ==> ol is Some && r->Ok_0.0 == l.0 && final(self).lexer.offset() == l.2
                    && r->Ok_0.1 == (n0 as u32, final(self).filter.regex@.len() as u32)
                    && final(self).filter.regex@.len() == n0 + l.1.len()
                    && final(self).filter.regex@.subrange(0, n0 as int) == old(self).filter.regex@
                    && forall|j: int| 0 <= j < l.1.len() ==> final(self).filter.regex@[n0 + j].text() == l.1[j]
                &&& ol is None ==> r is Err
                &&& r is Err && ol is Some ==> too_long(r->Err_0)
            }),
            r is Ok ==> final(self).budget() >= old(self).budget(),
            old(self).roomy() && r is Err ==> !too_long(r->Err_0),
    {
        let ghost src = self.lexer.source();
        let ghost n0 = self.filter.regex@.len();
        let (m, is_list) = self.list_head()?;
        let ghost h2 = self.lexer.offset();
        let start = self.filter.regex.len() as u32;
        proof {
            self.lexer.lemma_wf();
        }
        self.parse_regex()?;
        let ghost first = self.filter.regex@.last().text();
        let ghost prefix: Seq<Seq<u8>> = seq![first];
        proof {
            lemma_re_items_step(src, h2);
            assert(self.filter.regex@.subrange(0, n0 as int) =~= old(self).filter.regex@);
        }
        loop
            invariant
                self.step(old(self)),
                self.lexer.source() == src,
                src == old(self).lexer.source(),
                list_head_spec(src, old(self).lexer.offset()) == Some((m, is_list, h2)),
                self.filter.nodes@ == old(self).filter.nodes@,
                self.filter.values@ == old(self).filter.values@,
                start == n0,
                n0 == old(self).filter.regex@.len(),
                self.filter.regex@.len() == n0 + prefix.len(),
                prefix.len() >= 1,
                self.budget() >= old(self).budget() + 1,
                self.filter.regex@.subrange(0, n0 as int) == old(self).filter.regex@,
                forall|j: int| 0 <= j < prefix.len() ==> self.filter.regex@[n0 + j].text() == prefix[j],
                re_items(src, h2) == prepend(prefix, re_cont(src, self.lexer.offset())),
            ensures
                lex_spec(src, self.lexer.offset()).kind != TokenKind::SepList,
            decreases self.lexer.source().len() - self.lexer.offset(),
        {
            proof {
                self.lexer.lemma_wf();
                lemma_lex_bounds(self.lexer.source(), self.lexer.offset());
            }
            let ghost q = self.lexer.offset();
            let ghost before = self.filter.regex@;
            if self.lexer.take_kind(TokenKind::SepList).is_some() {
                proof {
                    self.lexer.lemma_wf();
                }
                let ghost p = self.lexer.offset();
                self.parse_regex()?;
                proof {
                    self.lexer.lemma_wf();
                    lemma_re_items_step(src, p);
                    let v = self.filter.regex@.last().text();
                    lemma_prepend_assoc(prefix, seq![v], re_cont(src, self.lexer.offset()));
                    assert forall|j: int| 0 <= j < prefix.len() + 1 implies self.filter.regex@[n0 + j].text() == (prefix + seq![v])[j] by {
                        if j < prefix.len() {
                            assert(self.filter.regex@[n0 + j] == before[n0 + j]);
                        }
                    }
                    assert(self.filter.regex@.subrange(0, n0 as int) =~= before.subrange(0, n0 as int));
                    prefix = prefix + seq![v];
                }
            } else {
                break;
            }
        }
        proof {
            assert(prefix + Seq::<Seq<u8>>::empty() =~= prefix);
        }
        if is_list {
            self.expect(TokenKind::CloseList, "Expect }")?;
        }
        Ok((m, (start, self.filter.regex.len() as u32)))
    }

    /// A column index below the column count, with its optional range.
    fn parse_col(&mut self) -> (r: Result<Col, CompileError>)
        requires
            old(self).inv(),
        ensures
            final(self).step(old(self)),
            final(self).filter.nodes@ == old(self).filter.nodes@,
            final(self).filter.values@ == old(self).filter.values@,
            final(self).filter.regex@ == old(self).filter.regex@,
            r is Ok ==> r->Ok_0.idx < final(self).nb_col,
            r is Ok ==> final(self).lexer.offset() > old(self).lexer.offset(),
            r is Err ==> final(self).err_ok(r->Err_0),
            r is Ok == col_spec(old(self).lexer.source(), old(self).lexer.offset(), old(self).nb_col as nat) is Some,
            r is Ok ==> r->Ok_0 == col_spec(old(self).lexer.source(), old(self).lexer.offset(), old(self).nb_col as nat)->0,
            r is Ok ==> final(self).lexer.offset() == col_end(old(self).lexer.source(), old(self).lexer.offset()),
            r is Err ==> !too_long(r->Err_0),
            ({
                let t = lex_spec(old(self).lexer.source(), old(self).lexer.offset());
                let v = u32_of(tok_text(old(self).lexer.source(), t));
                t.kind == TokenKind::Nb && v is Some && v->0 >= old(self).nb_col ==> r is Err && r->Err_0.start == t.start
                    && r->Err_0.end == t.end && r->Err_0.msg == "No column with this index"
            }),
    {
        proof {
            self.lexer.lemma_wf();
            lemma_lex_bounds(self.lexer.source(), self.lexer.offset());
        }
        let t = self.lexer.next();
        if t.kind != TokenKind::Nb {
            return Err(err_at(t, "Expect a column index"));
        }
        let idx = match parse_u32(self.text(t)) {
            Some(v) => v,
            None => return Err(err_at(t, "Expect a column index")),
        };
        if idx as usize >= self.nb_col {
            return Err(err_at(t, "No column with this index"));
        }
        let (start, end) = self.parse_range()?;
        Ok(Col { idx, start, end })
    }

    /// A column, then an optional match or comparison.
    fn parse_action(&mut self) -> (r: Result<u32, CompileError>)
        requires
            old(self).inv(),
        ensures
            final(self).step(old(self)),
            r is Ok ==> r->Ok_0 < final(self).filter.nodes@.len(),
            r is Ok ==> final(self).lexer.offset() > old(self).lexer.offset(),
            r is Err ==> final(self).err_ok(r->Err_0),
            ({
                let a = action_spec(old(self).lexer.source(), old(self).lexer.offset(), old(self).nb_col as nat);
                let av = a->0;
                &&& r is Ok ==> a is Some && final(self).lexer.offset() == av.1
                &&& r is Ok ==> forall|rec: Seq<Seq<u8>>| #[trigger] eval(&final(self).filter, r->Ok_0 as int, rec) == sem(av.0, rec)
                &&& a is None ==> r is Err
                &&& r is Err && a is Some ==> too_long(r->Err_0)
            }),
            r is Ok ==> final(self).budget() >= old(self).budget() + 1,
            old(self).roomy() && r is Err ==> !too_long(r->Err_0),
    {
        let col = self.parse_col()?;
        proof {
            self.lexer.lemma_wf();
            lemma_lex_bounds(self.lexer.source(), self.lexer.offset());
        }
        let ghost src = self.lexer.source();
        let ghost p = self.lexer.offset();
        let t = self.lexer.peek();
        match t.kind {
            TokenKind::Matches => {
                self.lexer.next();
                let ghost n0 = self.filter.regex@.len();
                let (m, range) = self.list_regex()?;
                let ghost lst = re_list(src, t.end as int)->0;
                let ghost ps = lst.1;
                let r = self.add_node(Node::Match { col, m, range });
                proof {
                    if r is Ok {
                        assert forall|rec: Seq<Seq<u8>>| #[trigger] eval(&self.filter, r->Ok_0 as int, rec)
                            == sem(SExpr::Match(col, m, ps), rec) by {
                            lemma_match_meaning(&self.filter, rec, col, m, ps, n0 as int);
                        }
                    }
                }
                r
            },
            TokenKind::Cmp(op) => {
                self.lexer.next();
                let ghost n0 = self.filter.values@.len();
                let (m, range) = self.list_values()?;
                let ghost lst = val_list(src, t.end as int)->0;
                let ghost vs = lst.1;
                let r = self.add_node(Node::Cmp { col, op, m, range });
                proof {
                    if r is Ok {
                        assert forall|rec: Seq<Seq<u8>>| #[trigger] eval(&self.filter, r->Ok_0 as int, rec)
                            == sem(SExpr::Cmp(col, op, m, vs), rec) by {
                            lemma_cmp_meaning(&self.filter, rec, col, op, m, vs, n0 as int);
                        }
                    }
                }
                r
            },
            _ => self.add_node(Node::Exist(col)),
        }
    }

    /// `not` expression, `(` expression `)`, or an action optionally
    /// followed by `&&`/`||` and an expression.
    #[verifier::rlimit(100)]
    #[verifier::spinoff_prover]
    fn parse_expr(&mut self) -> (r: Result<u32, CompileError>)
        requires
            old(self).inv(),
        ensures
            final(self).step(old(self)),
            r is Ok ==> r->Ok_0 < final(self).filter.nodes@.len(),
            r is Ok ==> final(self).lexer.offset() > old(self).lexer.offset(),
            r is Err ==> final(self).err_ok(r->Err_0),
            ({
                let e = expr_spec(old(self).lexer.source(), old(self).lexer.offset(), old(self).nb_col as nat);
                let ev = e->0;
                &&& r is Ok ==> e is Some && final(self).lexer.offset() == ev.1
                &&& r is Ok ==> forall|rec: Seq<Seq<u8>>| #[trigger] eval(&final(self).filter, r->Ok_0 as int, rec) == sem(ev.0, rec)
                &&& e is None ==> r is Err
                &&& r is Err && e is Some ==> too_long(r->Err_0)
            }),
            r is Ok ==> final(self).budget() >= old(self).budget(),
            old(self).roomy() && r is Err ==> !too_long(r->Err_0),
            ({
                let t = lex_spec(old(self).lexer.source(), old(self).lexer.offset());
                let n = final(self).filter.nodes@[r->Ok_0 as int];
                &&& r is Ok && t.kind == TokenKind::Not ==> n is Unary && n->Unary_0 == true && n->Unary_1 < r->Ok_0
                &&& r is Ok && t.kind == TokenKind::OpenExpr ==> n is Unary && n->Unary_0 == false && n->Unary_1 < r->Ok_0
            }),
        decreases old(self).lexer.source().len() - old(self).lexer.offset(),
    {
        proof {
            self.lexer.lemma_wf();
            lemma_lex_bounds(self.lexer.source(), self.lexer.offset());
        }
        let ghost src = self.lexer.source();
        if let Some(tn) = self.lexer.take_kind(TokenKind::Not) {
            assert(old(self).roomy() ==> self.roomy());
            let idx = self.parse_expr()?;
            proof {
                self.lexer.lemma_wf();
                assert(old(self).roomy() ==> self.filter.nodes@.len() < u32::MAX);
            }
            let ghost f1 = self.filter;
            let ghost inner = expr_spec(src, tn.end as int, self.nb_col as nat)->0;
            let r = self.add_node(Node::Unary(true, idx));
            proof {
                if r is Ok {
                    lemma_unary_meaning(&f1, &self.filter, idx as int, true, inner.0, SExpr::Not(Box::new(inner.0)));
                }
            }
            r
        } else if let Some(to) = self.lexer.take_kind(TokenKind::OpenExpr) {
            assert(old(self).roomy() ==> self.roomy());
            let idx = self.parse_expr()?;
            proof {
                self.lexer.lemma_wf();
                assert(old(self).roomy() ==> self.filter.nodes@.len() < u32::MAX);
            }
            let ghost inner = expr_spec(src, to.end as int, self.nb_col as nat)->0;
            self.expect(TokenKind::CloseExpr, "Expect )")?;
            let ghost f1 = self.filter;
            let r = self.add_node(Node::Unary(false, idx));
            proof {
                if r is Ok {
                    lemma_unary_meaning(&f1, &self.filter, idx as int, false, inner.0, SExpr::Group(Box::new(inner.0)));
                }
            }
            r
        } else {
            let ghost off0 = self.lexer.offset();
            let lhs = self.parse_action()?;
            let ghost f1 = self.filter;
            proof {
                self.lexer.lemma_wf();
                assert(old(self).roomy() ==> self.roomy() && self.filter.nodes@.len() < u32::MAX);
            }
            let ghost act = action_spec(src, off0, self.nb_col as nat)->0;
            proof {
                self.lexer.lemma_wf();
                lemma_lex_bounds(self.lexer.source(), self.lexer.offset());
            }
            let t = self.lexer.peek();
            match t.kind {
                TokenKind::Logi(op) => {
                    self.lexer.next();
                    assert(old(self).roomy() ==> self.roomy());
                    let rhs = self.parse_expr()?;
                    proof {
                        self.lexer.lemma_wf();
                        assert(old(self).roomy() ==> self.filter.nodes@.len() < u32::MAX);
                    }
                    let ghost f2 = self.filter;
                    let ghost right = expr_spec(src, t.end as int, self.nb_col as nat)->0;
                    let r = self.add_node(Node::Binary { lhs, op, rhs });
                    proof {
                        if r is Ok {
                            lemma_binary_meaning(&f1, &f2, &self.filter, lhs as int, rhs as int, op, act.0, right.0);
                        }
                    }
                    r
                },
                TokenKind::Eof | TokenKind::CloseExpr => {
                    let r = self.add_node(Node::Unary(false, lhs));
                    proof {
                        if r is Ok {
                            lemma_unary_meaning(&f1, &self.filter, lhs as int, false, act.0, SExpr::Group(Box::new(act.0)));
                        }
                    }
                    r
                },
                _ => Err(err_at(t, "Expect && or ||")),
            }
        }
    }
}

impl Filter {
    /// Compiles `source` for a table of `nb_col` columns. A source with no
    /// token gives the identity filter.
    pub fn new(source: &str, nb_col: usize) -> (r: Result<Filter, CompileError>)
        ensures
            r is Ok ==> r->Ok_0.wf(nb_col as nat),
            r is Ok ==> r->Ok_0.source@ == source.spec_bytes(),
            r is Ok ==> r->Ok_0.text@ == source@,
            lex_spec(source.spec_bytes(), 0).kind == TokenKind::Eof ==> r is Ok && r->Ok_0.nodes@.len() == 0,
            r is Ok && lex_spec(source.spec_bytes(), 0).kind != TokenKind::Eof ==> r->Ok_0.nodes@.len() > 0,
            r is Err ==> r->Err_0.start <= r->Err_0.end <= source.spec_bytes().len(),
            r is Ok ==> filter_spec(source.spec_bytes(), nb_col as nat) is Some,
            filter_spec(source.spec_bytes(), nb_col as nat) is None ==> r is Err,
            r is Err && filter_spec(source.spec_bytes(), nb_col as nat) is Some ==> too_long(r->Err_0),
            r is Ok ==> forall|rec: Seq<Seq<u8>>| #[trigger] accepts(&r->Ok_0, rec) == filter_meaning(source.spec_bytes(), nb_col as nat, rec),
            2 * source.spec_bytes().len() < u32::MAX ==> (r is Ok <==> filter_spec(source.spec_bytes(), nb_col as nat) is Some),
    {
        let bytes = slice_to_vec(source.as_bytes());
        let mut c = Compiler {
            filter: Filter {
                values: Vec::new(),
                regex: Vec::new(),
                nodes: Vec::new(),
                source: bytes,
                text: source.to_owned(),
                start: 0,
            },
            lexer: Lexer::load(source),
            nb_col,
        };
        proof {
            c.lexer.lemma_wf();
            lemma_lex_bounds(c.lexer.source(), c.lexer.offset());
        }
        if c.lexer.peek().kind != TokenKind::Eof {
            let start = c.parse_expr()?;
            c.expect(TokenKind::Eof, "Expect && or ||")?;
            let ghost f = c.filter;
            c.filter.start = start;
            proof {
                assert forall|rec: Seq<Seq<u8>>| #[trigger] accepts(&c.filter, rec) == filter_meaning(source.spec_bytes(), nb_col as nat, rec) by {
                    lemma_eval_stable(&f, &c.filter, start as int, rec);
                }
                assert forall|i: int| 0 <= i < c.filter.nodes@.len() implies #[trigger] c.filter.node_linked(i) by {
                    assert(f.node_linked(i));
                }
                assert forall|i: int| 0 <= i < c.filter.nodes@.len() implies #[trigger] c.filter.node_cols(i, nb_col as nat) by {
                    assert(f.node_cols(i, nb_col as nat));
                }
            }
        }
        Ok(c.filter)
    }
}

} // verus!

verus! {

/// How a byte of the filter is coloured.
#[derive(Debug, Clone, Copy, PartialEq, Eq, Structural)]
pub enum Style {
    Plain,
    Id,
    Nb,
    Str,
    Regex,
    Action,
    Logi,
}

/// Whether `st` is a list of break-points that partitions `0..len`: the
/// first is at 0, positions strictly increase, and none is past `len`.
pub open spec fn partitions(st: Seq<(usize, Style)>, len: nat) -> bool {
    &&& st.len() >= 1
    &&& st[0].0 == 0
    &&& forall|i: int, j: int| 0 <= i < j < st.len() ==> st[i].0 < st[j].0
    &&& forall|i: int| 0 <= i < st.len() ==> #[trigger] st[i].0 <= len
}

/// Whether `pos` lies in the segment that starts at break-point `k`.
pub open spec fn in_segment(st: Seq<(usize, Style)>, k: int, pos: int) -> bool {
    &&& 0 <= k < st.len()
    &&& st[k].0 <= pos
    &&& (k + 1 == st.len() || pos < st[k + 1].0)
}

/// The colouring of a filter as it is typed. It never fails: it stops
/// colouring where the input stops making sense.
pub struct Highlighter {
    styles: Vec<(usize, Style)>,
    idx: usize,
    len: usize,
}

impl Highlighter {
    /// The break-points: each style holds from its position to the next.
    pub closed spec fn breaks(&self) -> Seq<(usize, Style)> {
        self.styles@
    }

    /// The length of the source.
    pub closed spec fn source_len(&self) -> nat {
        self.len as nat
    }

    pub closed spec fn wf(&self) -> bool {
        &&& partitions(self.styles@, self.len as nat)
        &&& self.idx < self.styles@.len()
    }

    spec fn last_pos(&self) -> int {
        self.styles@[self.styles@.len() - 1].0 as int
    }

    spec fn tracks(&self, lexer: &Lexer) -> bool {
        &&& self.wf()
        &&& lexer.wf()
        &&& lexer.source().len() == self.len
        &&& self.last_pos() <= lexer.offset()
    }

    /// Colours the source `source`.
    pub fn new(source: &str) -> (r: Highlighter)
        ensures
            r.wf(),
            partitions(r.breaks(), r.source_len()),
            r.source_len() == source.spec_bytes().len(),
            r.breaks() == highlight_spec(source.spec_bytes()),
    {
        let mut lexer = Lexer::load(source);
        let mut h = Highlighter { styles: vec![(0, Style::Plain)], idx: 0, len: source.as_bytes().len() };
        assert(h.styles@ =~= seq![(0usize, Style::Plain)]);
        h.parse_expr(&mut lexer);
        h
    }

    /// The style at byte `pos`, by moving a cursor from the previous query.
    pub fn style(&mut self, pos: usize) -> (r: Style)
        requires
            old(self).wf(),
        ensures
            final(self).wf(),
            final(self).breaks() == old(self).breaks(),
            final(self).source_len() == old(self).source_len(),
            exists|k: int| in_segment(old(self).breaks(), k, pos as int) && r == old(self).breaks()[k].1,
    {
        while pos < self.styles[self.idx].0
            invariant
                self.wf(),
                self.styles@ == old(self).styles@,
                self.len == old(self).len,
            decreases self.idx,
        {
            self.idx = self.idx - 1;
        }
        while self.idx < self.styles.len() - 1 && pos >= self.styles[self.idx + 1].0
            invariant
                self.wf(),
                self.styles@ == old(self).styles@,
                self.len == old(self).len,
                self.styles@[self.idx as int].0 <= pos,
            decreases self.styles@.len() - self.idx,
        {
            self.idx = self.idx + 1;
        }
        let r = self.styles[self.idx].1;
        assert(in_segment(old(self).breaks(), self.idx as int, pos as int) && r == old(self).breaks()[self.idx as int].1);
        r
    }

    /// Colours the bytes `start..end` with `style`.
    fn add(&mut self, start: usize, end: usize, style: Style)
        requires
            old(self).wf(),
            old(self).last_pos() <= start <= end <= old(self).len,
        ensures
            final(self).wf(),
            final(self).len == old(self).len,
            final(self).last_pos() <= end,
            final(self).styles@ == hl_add(old(self).styles@, start, end, style),
    {
        if start == end {
            return;
        }
        let last = self.styles.len() - 1;
        if self.styles[last].0 == start {
            self.styles.set(last, (start, style));
        } else {
            self.styles.push((start, style));
        }
        self.styles.push((end, Style::Plain));
    }

    /// Colours the token `t`, just taken from `lexer`.
    fn add_token(&mut self, t: Token, style: Style, lexer: &Lexer)
        requires
            old(self).wf(),
            lexer.wf(),
            lexer.source().len() == old(self).len,
            old(self).last_pos() <= t.start <= t.end == lexer.offset(),
        ensures
            final(self).tracks(lexer),
            final(self).styles@ == hl_add(old(self).styles@, t.start, t.end, style),
    {
        proof {
            lexer.lemma_wf();
        }
        self.add(t.start, t.end, style);
    }

    fn take_styled(&mut self, lexer: &mut Lexer, kind: TokenKind, style: Style)
        requires
            old(self).tracks(old(lexer)),
        ensures
            final(self).tracks(final(lexer)),
            final(lexer).source() == old(lexer).source(),
            final(lexer).offset() >= old(lexer).offset(),
            final(self).styles@ == hl_take(old(lexer).source(), old(self).styles@, old(lexer).offset(), kind, style).0,
            final(lexer).offset() == hl_take(old(lexer).source(), old(self).styles@, old(lexer).offset(), kind, style).1,
    {
        proof {
            lexer.lemma_wf();
            lemma_lex_bounds(lexer.source(), lexer.offset());
        }
        if let Some(t) = lexer.take_kind(kind) {
            self.add_token(t, style, lexer);
        }
    }

    fn parse_range(&mut self, lexer: &mut Lexer)
        requires
            old(self).tracks(old(lexer)),
        ensures
            final(self).tracks(final(lexer)),
            final(lexer).source() == old(lexer).source(),
            final(lexer).offset() >= old(lexer).offset(),
            final(self).styles@ == hl_range(old(lexer).source(), old(self).styles@, old(lexer).offset()).0,
            final(lexer).offset() == hl_range(old(lexer).source(), old(self).styles@, old(lexer).offset()).1,
    {
        proof {
            lexer.lemma_wf();
            lemma_lex_bounds(lexer.source(), lexer.offset());
        }
        if let Some(t) = lexer.take_kind(TokenKind::OpenRange) {
            self.add_token(t, Style::Id, lexer);
            self.take_styled(lexer, TokenKind::Nb, Style::Id);
            self.take_styled(lexer, TokenKind::SepRange, Style::Id);
            self.take_styled(lexer, TokenKind::Matches, Style::Id);
            self.take_styled(lexer, TokenKind::Nb, Style::Id);
            self.take_styled(lexer, TokenKind::CloseRange, Style::Id);
        }
    }

    /// One item of a list: a pattern, or a value.
    fn parse_item(&mut self, lexer: &mut Lexer, regex: bool)
        requires
            old(self).tracks(old(lexer)),
        ensures
            final(self).tracks(final(lexer)),
            final(lexer).source() == old(lexer).source(),
            final(lexer).offset() >= old(lexer).offset(),
            final(self).styles@ == hl_item(old(lexer).source(), old(self).styles@, old(lexer).offset(), regex).0,
            final(lexer).offset() == hl_item(old(lexer).source(), old(self).styles@, old(lexer).offset(), regex).1,
    {
        proof {
            lexer.lemma_wf();
            lemma_lex_bounds(lexer.source(), lexer.offset());
        }
        let t = lexer.next();
        match t.kind {
            TokenKind::Str | TokenKind::Id => self.add_token(t, if regex { Style::Regex } else { Style::Str }, lexer),
            TokenKind::Nb => self.add_token(t, if regex { Style::Regex } else { Style::Nb }, lexer),
            _ => {},
        }
    }

    fn list(&mut self, lexer: &mut Lexer, regex: bool)
        requires
            old(self).tracks(old(lexer)),
        ensures
            final(self).tracks(final(lexer)),
            final(lexer).source() == old(lexer).source(),
            final(lexer).offset() >= old(lexer).offset(),
            final(self).styles@ == hl_list(old(lexer).source(), old(self).styles@, old(lexer).offset(), regex).0,
            final(lexer).offset() == hl_list(old(lexer).source(), old(self).styles@, old(lexer).offset(), regex).1,
    {
        proof {
            lexer.lemma_wf();
            lemma_lex_bounds(lexer.source(), lexer.offset());
        }
        let k = lexer.peek().kind;
        if let TokenKind::Match(_) = k {
            self.take_styled(lexer, k, Style::Action);
        }
        self.take_styled(lexer, TokenKind::OpenList, Style::Plain);
        self.parse_item(lexer, regex);
        let ghost src = lexer.source();
        let ghost c = (self.styles@, lexer.offset());
        loop
            invariant
                self.tracks(lexer),
                lexer.source() == old(lexer).source(),
                src == lexer.source(),
                lexer.offset() >= old(lexer).offset(),
                hl_rest(src, self.styles@, lexer.offset(), regex) == hl_rest(src, c.0, c.1, regex),
            ensures
                lex_spec(src, lexer.offset()).kind != TokenKind::SepList,
            decreases lexer.source().len() - lexer.offset(),
        {
            proof {
                lexer.lemma_wf();
                lemma_lex_bounds(lexer.source(), lexer.offset());
            }
            if lexer.take_kind(TokenKind::SepList).is_some() {
                proof {
                    lexer.lemma_wf();
                    lemma_lex_bounds(lexer.source(), lexer.offset());
                }
                self.parse_item(lexer, regex);
                proof {
                    lexer.lemma_wf();
                }
            } else {
                break;
            }
        }
        self.take_styled(lexer, TokenKind::CloseList, Style::Plain);
    }

    fn parse_action(&mut self, lexer: &mut Lexer)
        requires
            old(self).tracks(old(lexer)),
        ensures
            final(self).tracks(final(lexer)),
            final(lexer).source() == old(lexer).source(),
            final(lexer).offset() >= old(lexer).offset(),
            final(self).styles@ == hl_action(old(lexer).source(), old(self).styles@, old(lexer).offset()).0,
            final(lexer).offset() == hl_action(old(lexer).source(), old(self).styles@, old(lexer).offset()).1,
    {
        proof {
            lexer.lemma_wf();
            lemma_lex_bounds(lexer.source(), lexer.offset());
        }
        let t = lexer.next();
        if t.kind == TokenKind::Nb {
            self.add_token(t, Style::Id, lexer);
        }
        self.parse_range(lexer);
        proof {
            lexer.lemma_wf();
            lemma_lex_bounds(lexer.source(), lexer.offset());
        }
        let t = lexer.peek();
        match t.kind {
            TokenKind::Matches => {
                let t = lexer.next();
                self.add_token(t, Style::Action, lexer);
                self.list(lexer, true);
            },
            TokenKind::Cmp(_) => {
                let t = lexer.next();
                self.add_token(t, Style::Action, lexer);
                self.list(lexer, false);
            },
            _ => {},
        }
    }

    fn parse_expr(&mut self, lexer: &mut Lexer)
        requires
            old(self).tracks(old(lexer)),
        ensures
            final(self).tracks(final(lexer)),
            final(lexer).source() == old(lexer).source(),
            final(lexer).offset() >= old(lexer).offset(),
            final(self).styles@ == hl_expr(old(lexer).source(), old(self).styles@, old(lexer).offset()).0,
            final(lexer).offset() == hl_expr(old(lexer).source(), old(self).styles@, old(lexer).offset()).1,
        decreases old(lexer).source().len() - old(lexer).offset(),
    {
        proof {
            lexer.lemma_wf();
            lemma_lex_bounds(lexer.source(), lexer.offset());
        }
        if let Some(t) = lexer.take_kind(TokenKind::Not) {
            self.add_token(t, Style::Logi, lexer);
            self.parse_expr(lexer);
        } else if let Some(t) = lexer.take_kind(TokenKind::OpenExpr) {
            self.add_token(t, Style::Plain, lexer);
            self.parse_expr(lexer);
            self.take_styled(lexer, TokenKind::CloseExpr, Style::Plain);
        } else {
            self.parse_action(lexer);
            proof {
                lexer.lemma_wf();
                lemma_lex_bounds(lexer.source(), lexer.offset());
            }
            let t = lexer.next();
            if let TokenKind::Logi(_) = t.kind {
                self.add_token(t, Style::Logi, lexer);
            } else if t.kind == TokenKind::Eof {
                return;
            }
            self.parse_expr(lexer);
        }
    }
}

proof fn lemma_segment_from(st: Seq<(usize, Style)>, pos: int, k: int)
    requires
        0 <= k < st.len(),
        st[k].0 <= pos,
    ensures
        exists|j: int| in_segment(st, j, pos),
    decreases st.len() - k,
{
    if k + 1 < st.len() && pos >= st[k + 1].0 {
        lemma_segment_from(st, pos, k + 1);
    } else {
        assert(in_segment(st, k, pos));
    }
}

/// The colouring partitions the source: break-points start at 0, strictly
/// increase, stay within the source, and every byte falls in one segment.
pub proof fn lemma_highlight_partition(h: &Highlighter, pos: int)
    requires
        h.wf(),
        0 <= pos < h.source_len(),
    ensures
        partitions(h.breaks(), h.source_len()),
        exists|k: int| in_segment(h.breaks(), k, pos),
{
    lemma_segment_from(h.breaks(), pos, 0);
}

} // verus!
