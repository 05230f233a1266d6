use super::compiler::{pattern_matches, range_in, regex_match, Col, Filter, Node, Value};
use super::lexer::{CmpOp, LogiOp, MatchOp};
use crate::num::{cmp_decimal, decimal_order, decimal_text, is_decimal, render_decimal, Dec};
use crate::record::NestedString;
use core::cmp::Ordering;
use vstd::prelude::*;

verus! {

/// The byte-wise order of `a` and `b`.
pub open spec fn lex_order(a: Seq<u8>, b: Seq<u8>) -> Ordering
    decreases a.len(),
{
    if a.len() == 0 {
        if b.len() == 0 { Ordering::Equal } else { Ordering::Less }
    } else if b.len() == 0 {
        Ordering::Greater
    } else if a[0] < b[0] {
        Ordering::Less
    } else if a[0] > b[0] {
        Ordering::Greater
    } else {
        lex_order(a.drop_first(), b.drop_first())
    }
}

/// Whether an order satisfies the comparison `op`.
pub open spec fn order_ok(o: Ordering, op: CmpOp) -> bool {
    match op {
        CmpOp::Eq => o == Ordering::Equal,
        CmpOp::Ne => o != Ordering::Equal,
        CmpOp::Gt => o == Ordering::Greater,
        CmpOp::Lt => o == Ordering::Less,
        CmpOp::Ge => o != Ordering::Less,
        CmpOp::Le => o != Ordering::Greater,
    }
}

/// `s` without its leading `"` bytes.
pub open spec fn strip_front(s: Seq<u8>) -> Seq<u8>
    decreases s.len(),
{
    if s.len() > 0 && s[0] == 0x22 { strip_front(s.drop_first()) } else { s }
}

/// `s` without its trailing `"` bytes.
pub open spec fn strip_back(s: Seq<u8>) -> Seq<u8>
    decreases s.len(),
{
    if s.len() > 0 && s[s.len() - 1] == 0x22 { strip_back(s.drop_last()) } else { s }
}

/// `s` without the `"` bytes at either end.
pub open spec fn unquote(s: Seq<u8>) -> Seq<u8> {
    strip_back(strip_front(s))
}

/// The bytes of the field that `col` selects: the slice is held to the
/// field, and a missing field is empty.
pub open spec fn select(rec: Seq<Seq<u8>>, col: Col) -> Seq<u8> {
    let f = if col.idx < rec.len() { rec[col.idx as int] } else { Seq::empty() };
    let e = if col.end <= f.len() { col.end as int } else { f.len() as int };
    let s = if col.start <= e { col.start as int } else { e };
    f.subrange(s, e)
}

/// Whether the bytes `s` compare with `v` as `op` asks: a number compares
/// numerically with a field that reads as one, and else with the number's
/// text; a string compares byte-wise without its quotes.
pub open spec fn value_ok(source: Seq<u8>, s: Seq<u8>, op: CmpOp, v: Value) -> bool {
    match v {
        Value::Nb(d) => if is_decimal(s) {
            order_ok(decimal_order(s, d.text()), op)
        } else {
            order_ok(lex_order(s, decimal_text(d.text())), op)
        },
        Value::Str(a, b) => order_ok(lex_order(s, unquote(source.subrange(a as int, b as int))), op),
    }
}

/// Whether value `k` of the filter accepts the field that `col` selects.
pub open spec fn value_hit(f: &Filter, rec: Seq<Seq<u8>>, col: Col, op: CmpOp, k: int) -> bool {
    value_ok(f.source@, select(rec, col), op, f.values@[k])
}

/// Whether pattern `k` of the filter matches the field that `col` selects.
pub open spec fn regex_hit(f: &Filter, rec: Seq<Seq<u8>>, col: Col, k: int) -> bool {
    regex_match(f.regex@[k].text(), select(rec, col))
}

/// Whether every (`All`) or some (`Any`) value of `range` accepts the field
/// that `col` selects.
pub open spec fn cmp_holds(f: &Filter, rec: Seq<Seq<u8>>, col: Col, op: CmpOp, m: MatchOp, range: (u32, u32)) -> bool {
    match m {
        MatchOp::All => forall|k: int| range.0 <= k < range.1 ==> #[trigger] value_hit(f, rec, col, op, k),
        MatchOp::Any => exists|k: int| range.0 <= k < range.1 && #[trigger] value_hit(f, rec, col, op, k),
    }
}

/// Whether every (`All`) or some (`Any`) pattern of `range` matches the
/// field that `col` selects.
pub open spec fn match_holds(f: &Filter, rec: Seq<Seq<u8>>, col: Col, m: MatchOp, range: (u32, u32)) -> bool {
    match m {
        MatchOp::All => forall|k: int| range.0 <= k < range.1 ==> #[trigger] regex_hit(f, rec, col, k),
        MatchOp::Any => exists|k: int| range.0 <= k < range.1 && #[trigger] regex_hit(f, rec, col, k),
    }
}

/// The result of node `i` on the record `rec`, by plain recursion.
pub open spec fn eval(f: &Filter, i: int, rec: Seq<Seq<u8>>) -> bool
    decreases i,
{
    if i < 0 || i >= f.nodes@.len() {
        false
    } else {
        match f.nodes@[i] {
            Node::Exist(col) => select(rec, col).len() > 0,
            Node::Cmp { col, op, m, range } => cmp_holds(f, rec, col, op, m, range),
            Node::Match { col, m, range } => match_holds(f, rec, col, m, range),
            Node::Unary(neg, ch) => if ch < i {
                if neg { !eval(f, ch as int, rec) } else { eval(f, ch as int, rec) }
            } else {
                false
            },
            Node::Binary { lhs, op, rhs } => if lhs < i && rhs < i {
                match op {
                    LogiOp::And => eval(f, lhs as int, rec) && eval(f, rhs as int, rec),
                    LogiOp::Or => eval(f, lhs as int, rec) || eval(f, rhs as int, rec),
                }
            } else {
                false
            },
        }
    }
}

/// Whether the filter accepts the record `rec`.
pub open spec fn accepts(f: &Filter, rec: Seq<Seq<u8>>) -> bool {
    f.nodes@.len() == 0 || eval(f, f.start as int, rec)
}

/// Evaluates a compiled filter on records.
pub struct Engine<'a> {
    pub filter: &'a Filter,
}

/// The byte-wise order of `a` and `b`.
pub fn cmp_bytes(a: &[u8], b: &[u8]) -> (r: Ordering)
    ensures
        r == lex_order(a@, b@),
{
    let mut i: usize = 0;
    proof {
        assert(a@.subrange(0, a@.len() as int) =~= a@);
        assert(b@.subrange(0, b@.len() as int) =~= b@);
    }
    while i < a.len() && i < b.len() && a[i] == b[i]
        invariant
            i <= a@.len() && i <= b@.len(),
            lex_order(a@, b@) == lex_order(a@.subrange(i as int, a@.len() as int), b@.subrange(i as int, b@.len() as int)),
        decreases a@.len() - i,
    {
        proof {
            let x = a@.subrange(i as int, a@.len() as int);
            let y = b@.subrange(i as int, b@.len() as int);
            assert(x.drop_first() =~= a@.subrange(i + 1, a@.len() as int));
            assert(y.drop_first() =~= b@.subrange(i + 1, b@.len() as int));
        }
        i = i + 1;
    }
    proof {
        assert(a@.subrange(0, a@.len() as int) =~= a@);
        assert(b@.subrange(0, b@.len() as int) =~= b@);
    }
    if i == a.len() {
        if i == b.len() { Ordering::Equal } else { Ordering::Less }
    } else if i == b.len() {
        Ordering::Greater
    } else if a[i] < b[i] {
        Ordering::Less
    } else {
        Ordering::Greater
    }
}

/// Whether `o` satisfies the comparison `op`.
pub fn cmp_ok(o: Ordering, op: CmpOp) -> (r: bool)
    ensures
        r == order_ok(o, op),
{
    let (lt, eq, gt) = match o {
        Ordering::Less => (true, false, false),
        Ordering::Equal => (false, true, false),
        Ordering::Greater => (false, false, true),
    };
    match op {
        CmpOp::Eq => eq,
        CmpOp::Ne => !eq,
        CmpOp::Gt => gt,
        CmpOp::Lt => lt,
        CmpOp::Ge => !lt,
        CmpOp::Le => !gt,
    }
}

/// The part of `s` without the `"` bytes at either end.
pub fn unquote_bytes(s: &[u8]) -> (r: &[u8])
    ensures
        r@ == unquote(s@),
{
    let n = s.len();
    let mut a: usize = 0;
    proof {
        assert(s@.subrange(0, n as int) =~= s@);
    }
    while a < n && s[a] == 0x22
        invariant
            a <= n == s@.len(),
            strip_front(s@) == strip_front(s@.subrange(a as int, n as int)),
        decreases n - a,
    {
        proof {
            assert(s@.subrange(a as int, n as int).drop_first() =~= s@.subrange(a + 1, n as int));
        }
        a = a + 1;
    }
    proof {
        assert(s@.subrange(0, n as int) =~= s@);
    }
    let mut b: usize = n;
    while b > a && s[b - 1] == 0x22
        invariant
            a <= b <= n == s@.len(),
            strip_front(s@) == s@.subrange(a as int, n as int),
            strip_back(s@.subrange(a as int, n as int)) == strip_back(s@.subrange(a as int, b as int)),
        decreases b,
    {
        proof {
            assert(s@.subrange(a as int, b as int).drop_last() =~= s@.subrange(a as int, b - 1));
        }
        b = b - 1;
    }
    &s[a..b]
}

impl<'r> Engine<'r> {
    pub fn new(filter: &'r Filter) -> (r: Engine<'r>)
        ensures
            r.filter == filter,
    {
        Engine { filter }
    }

    /// The bytes of the field that `col` selects.
    fn get_col<'a>(record: &'a NestedString, col: Col) -> (r: &'a [u8])
        requires
            record.wf(),
        ensures
            r@ == select(record@, col),
    {
        let f: &[u8] = if (col.idx as usize) < record.len() { record.get_raw(col.idx as usize) } else { &[] };
        let e = if (col.end as usize) <= f.len() { col.end as usize } else { f.len() };
        let s = if (col.start as usize) <= e { col.start as usize } else { e };
        &f[s..e]
    }

    fn check_value(&self, s: &[u8], field_nb: &Option<Dec>, op: CmpOp, v: &Value) -> (r: bool)
        requires
            field_nb is Some == is_decimal(s@),
            field_nb is Some ==> field_nb->0.text() == s@,
            match *v {
                Value::Str(a, b) => a <= b <= self.filter.source@.len(),
                _ => true,
            },
        ensures
            r == value_ok(self.filter.source@, s@, op, *v),
    {
        match v {
            Value::Nb(nb) => match field_nb {
                Some(f) => cmp_ok(cmp_decimal(f, nb), op),
                None => {
                    let text = render_decimal(nb);
                    cmp_ok(cmp_bytes(s, text.as_slice()), op)
                },
            },
            Value::Str(a, b) => {
                let quoted = &self.filter.source.as_slice()[*a..*b];
                cmp_ok(cmp_bytes(s, unquote_bytes(quoted)), op)
            },
        }
    }

    fn compare(&self, record: &NestedString, col: Col, op: CmpOp, m: MatchOp, range: (u32, u32)) -> (r: bool)
        requires
            record.wf(),
            self.filter.wf_values(),
            range_in(range, self.filter.values@.len()),
        ensures
            r == cmp_holds(self.filter, record@, col, op, m, range),
    {
        let s = Self::get_col(record, col);
        let field_nb = Dec::parse(s);
        let mut i: u32 = range.0;
        while i < range.1
            invariant
                range.0 <= i <= range.1 <= self.filter.values@.len(),
                self.filter.wf_values(),
                s@ == select(record@, col),
                field_nb is Some == is_decimal(s@),
                field_nb is Some ==> field_nb->0.text() == s@,
                m == MatchOp::All ==> forall|k: int| range.0 <= k < i ==> #[trigger] value_hit(self.filter, record@, col, op, k),
                m == MatchOp::Any ==> forall|k: int| range.0 <= k < i ==> !#[trigger] value_hit(self.filter, record@, col, op, k),
            decreases range.1 - i,
        {
            let ok = self.check_value(s, &field_nb, op, &self.filter.values[i as usize]);
            assert(ok == value_hit(self.filter, record@, col, op, i as int));
            match m {
                MatchOp::All => if !ok {
                    return false;
                },
                MatchOp::Any => if ok {
                    return true;
                },
            }
            i = i + 1;
        }
        match m {
            MatchOp::All => true,
            MatchOp::Any => false,
        }
    }

    fn per_match(&self, record: &NestedString, col: Col, m: MatchOp, range: (u32, u32)) -> (r: bool)
        requires
            record.wf(),
            range_in(range, self.filter.regex@.len()),
        ensures
            r == match_holds(self.filter, record@, col, m, range),
    {
        let s = Self::get_col(record, col);
        let mut i: u32 = range.0;
        while i < range.1
            invariant
                range.0 <= i <= range.1 <= self.filter.regex@.len(),
                s@ == select(record@, col),
                m == MatchOp::All ==> forall|k: int| range.0 <= k < i ==> #[trigger] regex_hit(self.filter, record@, col, k),
                m == MatchOp::Any ==> forall|k: int| range.0 <= k < i ==> !#[trigger] regex_hit(self.filter, record@, col, k),
            decreases range.1 - i,
        {
            let ok = pattern_matches(&self.filter.regex[i as usize], s);
            assert(ok == regex_hit(self.filter, record@, col, i as int));
            match m {
                MatchOp::All => if !ok {
                    return false;
                },
                MatchOp::Any => if ok {
                    return true;
                },
            }
            i = i + 1;
        }
        match m {
            MatchOp::All => true,
            MatchOp::Any => false,
        }
    }

    fn run_node(&self, record: &NestedString, i: u32) -> (r: bool)
        requires
            record.wf(),
            self.filter.wf_values(),
            self.filter.wf_links(),
            i < self.filter.nodes@.len(),
        ensures
            r == eval(self.filter, i as int, record@),
        decreases i,
    {
        proof {
            assert(self.filter.node_linked(i as int));
        }
        match self.filter.nodes[i as usize] {
            Node::Exist(col) => Self::get_col(record, col).len() > 0,
            Node::Cmp { col, op, m, range } => self.compare(record, col, op, m, range),
            Node::Match { col, m, range } => self.per_match(record, col, m, range),
            Node::Unary(neg, ch) => {
                let r = self.run_node(record, ch);
                if neg { !r } else { r }
            },
            Node::Binary { lhs, op, rhs } => match op {
                LogiOp::And => self.run_node(record, lhs) && self.run_node(record, rhs),
                LogiOp::Or => self.run_node(record, lhs) || self.run_node(record, rhs),
            },
        }
    }

    /// Whether the filter accepts the record: by the recursive reading of
    /// its tree.
    pub fn check(&self, record: &NestedString) -> (r: bool)
        requires
            record.wf(),
            self.filter.wf_values(),
            self.filter.wf_links(),
        ensures
            r == accepts(self.filter, record@),
    {
        if self.filter.nodes.len() == 0 {
            true
        } else {
            self.run_node(record, self.filter.start)
        }
    }
}

} // verus!
