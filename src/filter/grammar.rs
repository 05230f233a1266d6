use super::compiler::{col_spec, range_spec, regex_valid, tok_text, Col, Style};
use super::compiler::regex_match;
use super::engine::{lex_order, order_ok, select, unquote};
use crate::num::{decimal_order, decimal_text};
use super::lexer::{lemma_lex_bounds, lex_spec, CmpOp, LogiOp, MatchOp, Token, TokenKind};
use crate::num::is_decimal;
use vstd::prelude::*;

verus! {

/// A value of a comparison, as written: a number's text, or a string
/// without its quotes.
pub enum SVal {
    Num(Seq<u8>),
    Text(Seq<u8>),
}

/// A filter expression, as written.
pub enum SExpr {
    Exist(Col),
    Cmp(Col, CmpOp, MatchOp, Seq<SVal>),
    /// Patterns, without their quotes.
    Match(Col, MatchOp, Seq<Seq<u8>>),
    Not(Box<SExpr>),
    /// Parentheses, or an action on its own.
    Group(Box<SExpr>),
    Bin(Box<SExpr>, LogiOp, Box<SExpr>),
}

/// Where the range written at `off` ends (`off` itself without one).
pub open spec fn range_end(s: Seq<u8>, off: int) -> int {
    let t0 = lex_spec(s, off);
    if t0.kind != TokenKind::OpenRange {
        off
    } else {
        let t1 = lex_spec(s, t0.end as int);
        let t2 = if t1.kind == TokenKind::Nb { lex_spec(s, t1.end as int) } else { t1 };
        let t3 = if t2.kind == TokenKind::Matches || t2.kind == TokenKind::SepRange { lex_spec(s, t2.end as int) } else { t2 };
        let t4 = if t3.kind == TokenKind::Nb { lex_spec(s, t3.end as int) } else { t3 };
        t4.end as int
    }
}

/// Where the column reference written at `off` ends.
pub open spec fn col_end(s: Seq<u8>, off: int) -> int {
    range_end(s, lex_spec(s, off).end as int)
}

/// The value that token `t` writes.
pub open spec fn val_item(s: Seq<u8>, t: Token) -> Option<SVal> {
    if t.kind == TokenKind::Nb {
        if is_decimal(tok_text(s, t)) { Some(SVal::Num(tok_text(s, t))) } else { Some(SVal::Text(unquote(tok_text(s, t)))) }
    } else if t.kind == TokenKind::Str || t.kind == TokenKind::Id {
        Some(SVal::Text(unquote(tok_text(s, t))))
    } else {
        None
    }
}

/// The pattern that token `t` writes, if it compiles.
pub open spec fn re_item(s: Seq<u8>, t: Token) -> Option<Seq<u8>> {
    if (t.kind == TokenKind::Str || t.kind == TokenKind::Id) && regex_valid(unquote(tok_text(s, t))) {
        Some(unquote(tok_text(s, t)))
    } else {
        None
    }
}

/// Values separated by `,` from `off`, and where they end.
pub open spec fn val_items(s: Seq<u8>, off: int) -> Option<(Seq<SVal>, int)>
    decreases s.len() - off,
{
    let t = lex_spec(s, off);
    match val_item(s, t) {
        None => None,
        Some(v) => {
            let n = lex_spec(s, t.end as int);
            if n.kind == TokenKind::SepList {
                if off < n.end <= s.len() {
                    match val_items(s, n.end as int) {
                        None => None,
                        Some(rest) => Some((seq![v] + rest.0, rest.1)),
                    }
                } else {
                    None
                }
            } else {
                Some((seq![v], t.end as int))
            }
        },
    }
}

/// Patterns separated by `,` from `off`, and where they end.
pub open spec fn re_items(s: Seq<u8>, off: int) -> Option<(Seq<Seq<u8>>, int)>
    decreases s.len() - off,
{
    let t = lex_spec(s, off);
    match re_item(s, t) {
        None => None,
        Some(v) => {
            let n = lex_spec(s, t.end as int);
            if n.kind == TokenKind::SepList {
                if off < n.end <= s.len() {
                    match re_items(s, n.end as int) {
                        None => None,
                        Some(rest) => Some((seq![v] + rest.0, rest.1)),
                    }
                } else {
                    None
                }
            } else {
                Some((seq![v], t.end as int))
            }
        },
    }
}

/// The start of a list: an optional `all`/`any` (default `all`), then `{`,
/// which is required after `all`/`any`. Gives the combiner, whether a
/// brace opened, and where the items start.
pub open spec fn list_head_spec(s: Seq<u8>, off: int) -> Option<(MatchOp, bool, int)> {
    let t = lex_spec(s, off);
    let m = match t.kind {
        TokenKind::Match(op) => Some(op),
        _ => None,
    };
    let p = if m is Some { t.end as int } else { off };
    let t2 = lex_spec(s, p);
    if t2.kind == TokenKind::OpenList {
        Some((if m is Some { m->0 } else { MatchOp::All }, true, t2.end as int))
    } else if m is Some {
        None
    } else {
        Some((MatchOp::All, false, p))
    }
}

/// A value or a braced list of values, with its combiner and end.
pub open spec fn val_list(s: Seq<u8>, off: int) -> Option<(MatchOp, Seq<SVal>, int)> {
    match list_head_spec(s, off) {
        None => None,
        Some(h) => match val_items(s, h.2) {
            None => None,
            Some(items) => if h.1 {
                if lex_spec(s, items.1).kind == TokenKind::CloseList {
                    Some((h.0, items.0, lex_spec(s, items.1).end as int))
                } else {
                    None
                }
            } else {
                Some((h.0, items.0, items.1))
            },
        },
    }
}

/// A pattern or a braced list of patterns, with its combiner and end.
pub open spec fn re_list(s: Seq<u8>, off: int) -> Option<(MatchOp, Seq<Seq<u8>>, int)> {
    match list_head_spec(s, off) {
        None => None,
        Some(h) => match re_items(s, h.2) {
            None => None,
            Some(items) => if h.1 {
                if lex_spec(s, items.1).kind == TokenKind::CloseList {
                    Some((h.0, items.0, lex_spec(s, items.1).end as int))
                } else {
                    None
                }
            } else {
                Some((h.0, items.0, items.1))
            },
        },
    }
}

/// An action at `off`: a column, then a match, a comparison, or nothing.
pub open spec fn action_spec(s: Seq<u8>, off: int, nb_col: nat) -> Option<(SExpr, int)> {
    match col_spec(s, off, nb_col) {
        None => None,
        Some(col) => {
            let p = col_end(s, off);
            let t = lex_spec(s, p);
            match t.kind {
                TokenKind::Matches => match re_list(s, t.end as int) {
                    None => None,
                    Some(l) => Some((SExpr::Match(col, l.0, l.1), l.2)),
                },
                TokenKind::Cmp(op) => match val_list(s, t.end as int) {
                    None => None,
                    Some(l) => Some((SExpr::Cmp(col, op, l.0, l.1), l.2)),
                },
                _ => Some((SExpr::Exist(col), p)),
            }
        },
    }
}

/// An expression at `off`: `not` and an expression, an expression in
/// parentheses, or an action followed by `&&`/`||` and an expression, or by
/// the end or a `)`.
pub open spec fn expr_spec(s: Seq<u8>, off: int, nb_col: nat) -> Option<(SExpr, int)>
    decreases s.len() - off,
{
    let t = lex_spec(s, off);
    if t.kind == TokenKind::Not {
        if off < t.end <= s.len() {
            match expr_spec(s, t.end as int, nb_col) {
                None => None,
                Some(e) => Some((SExpr::Not(Box::new(e.0)), e.1)),
            }
        } else {
            None
        }
    } else if t.kind == TokenKind::OpenExpr {
        if off < t.end <= s.len() {
            match expr_spec(s, t.end as int, nb_col) {
                None => None,
                Some(e) => if lex_spec(s, e.1).kind == TokenKind::CloseExpr {
                    Some((SExpr::Group(Box::new(e.0)), lex_spec(s, e.1).end as int))
                } else {
                    None
                },
            }
        } else {
            None
        }
    } else {
        match action_spec(s, off, nb_col) {
            None => None,
            Some(a) => {
                let t2 = lex_spec(s, a.1);
                match t2.kind {
                    TokenKind::Logi(op) => if off < t2.end <= s.len() {
                        match expr_spec(s, t2.end as int, nb_col) {
                            None => None,
                            Some(r) => Some((SExpr::Bin(Box::new(a.0), op, Box::new(r.0)), r.1)),
                        }
                    } else {
                        None
                    },
                    TokenKind::Eof | TokenKind::CloseExpr => Some((SExpr::Group(Box::new(a.0)), a.1)),
                    _ => None,
                }
            },
        }
    }
}

/// The filter that `s` writes for a table of `nb_col` columns: `Some(None)`
/// for the identity filter, `None` when `s` is not a filter.
pub open spec fn filter_spec(s: Seq<u8>, nb_col: nat) -> Option<Option<SExpr>> {
    if lex_spec(s, 0).kind == TokenKind::Eof {
        Some(None)
    } else {
        match expr_spec(s, 0, nb_col) {
            None => None,
            Some(e) => if lex_spec(s, e.1).kind == TokenKind::Eof { Some(Some(e.0)) } else { None },
        }
    }
}

/// The values after the item that ends at `q`: more after a `,`, else none.
pub open spec fn val_cont(s: Seq<u8>, q: int) -> Option<(Seq<SVal>, int)> {
    if lex_spec(s, q).kind == TokenKind::SepList {
        val_items(s, lex_spec(s, q).end as int)
    } else {
        Some((Seq::empty(), q))
    }
}

/// The patterns after the item that ends at `q`.
pub open spec fn re_cont(s: Seq<u8>, q: int) -> Option<(Seq<Seq<u8>>, int)> {
    if lex_spec(s, q).kind == TokenKind::SepList {
        re_items(s, lex_spec(s, q).end as int)
    } else {
        Some((Seq::empty(), q))
    }
}

pub open spec fn prepend<T>(p: Seq<T>, r: Option<(Seq<T>, int)>) -> Option<(Seq<T>, int)> {
    match r {
        None => None,
        Some(x) => Some((p + x.0, x.1)),
    }
}

pub proof fn lemma_val_items_step(s: Seq<u8>, off: int)
    requires
        0 <= off <= s.len() <= usize::MAX,
        val_item(s, lex_spec(s, off)) is Some,
    ensures
        val_items(s, off) == prepend(seq![val_item(s, lex_spec(s, off))->0], val_cont(s, lex_spec(s, off).end as int)),
{
    lemma_lex_bounds(s, off);
    let t = lex_spec(s, off);
    lemma_lex_bounds(s, t.end as int);
    if lex_spec(s, t.end as int).kind != TokenKind::SepList {
        assert(seq![val_item(s, t)->0] + Seq::<SVal>::empty() =~= seq![val_item(s, t)->0]);
    }
}

pub proof fn lemma_re_items_step(s: Seq<u8>, off: int)
    requires
        0 <= off <= s.len() <= usize::MAX,
        re_item(s, lex_spec(s, off)) is Some,
    ensures
        re_items(s, off) == prepend(seq![re_item(s, lex_spec(s, off))->0], re_cont(s, lex_spec(s, off).end as int)),
{
    lemma_lex_bounds(s, off);
    let t = lex_spec(s, off);
    lemma_lex_bounds(s, t.end as int);
    if lex_spec(s, t.end as int).kind != TokenKind::SepList {
        assert(seq![re_item(s, t)->0] + Seq::<Seq<u8>>::empty() =~= seq![re_item(s, t)->0]);
    }
}

pub proof fn lemma_prepend_assoc<T>(a: Seq<T>, b: Seq<T>, r: Option<(Seq<T>, int)>)
    ensures
        prepend(a, prepend(b, r)) == prepend(a + b, r),
{
    match r {
        Some((x, _)) => {
            assert(a + (b + x) =~= (a + b) + x);
        },
        None => {},
    }
}

/// Whether the field bytes `x` compare with the written value `v` as `op`
/// asks: numerically with a number when `x` reads as one, else byte-wise
/// with the number's text or with the string.
pub open spec fn sval_ok(x: Seq<u8>, op: CmpOp, v: SVal) -> bool {
    match v {
        SVal::Num(t) => if is_decimal(x) {
            order_ok(decimal_order(x, t), op)
        } else {
            order_ok(lex_order(x, decimal_text(t)), op)
        },
        SVal::Text(u) => order_ok(lex_order(x, u), op),
    }
}

/// Whether every (`All`) or some (`Any`) written value accepts `x`.
pub open spec fn sem_cmp(x: Seq<u8>, op: CmpOp, m: MatchOp, vs: Seq<SVal>) -> bool {
    match m {
        MatchOp::All => forall|j: int| 0 <= j < vs.len() ==> #[trigger] sval_ok(x, op, vs[j]),
        MatchOp::Any => exists|j: int| 0 <= j < vs.len() && #[trigger] sval_ok(x, op, vs[j]),
    }
}

/// Whether every (`All`) or some (`Any`) written pattern matches `x`.
pub open spec fn sem_match(x: Seq<u8>, m: MatchOp, ps: Seq<Seq<u8>>) -> bool {
    match m {
        MatchOp::All => forall|j: int| 0 <= j < ps.len() ==> #[trigger] regex_match(ps[j], x),
        MatchOp::Any => exists|j: int| 0 <= j < ps.len() && #[trigger] regex_match(ps[j], x),
    }
}

/// What a written expression says of the record `rec`.
pub open spec fn sem(e: SExpr, rec: Seq<Seq<u8>>) -> bool
    decreases e,
{
    match e {
        SExpr::Exist(col) => select(rec, col).len() > 0,
        SExpr::Cmp(col, op, m, vs) => sem_cmp(select(rec, col), op, m, vs),
        SExpr::Match(col, m, ps) => sem_match(select(rec, col), m, ps),
        SExpr::Not(b) => !sem(*b, rec),
        SExpr::Group(b) => sem(*b, rec),
        SExpr::Bin(l, op, r) => match op {
            LogiOp::And => sem(*l, rec) && sem(*r, rec),
            LogiOp::Or => sem(*l, rec) || sem(*r, rec),
        },
    }
}

/// Whether the filter written `s` accepts the record `rec`: every record
/// for the identity filter.
pub open spec fn filter_meaning(s: Seq<u8>, nb_col: nat, rec: Seq<Seq<u8>>) -> bool {
    match filter_spec(s, nb_col) {
        Some(Some(e)) => sem(e, rec),
        _ => true,
    }
}

} // verus!

verus! {

/// The break-points `st` after colouring the bytes `start..end` with
/// `style`: an empty span changes nothing; a span that starts where the last
/// break-point stands restyles it.
pub open spec fn hl_add(st: Seq<(usize, Style)>, start: usize, end: usize, style: Style) -> Seq<(usize, Style)> {
    if start == end {
        st
    } else {
        let st1 = if st.len() > 0 && st.last().0 == start {
            st.update(st.len() - 1, (start, style))
        } else {
            st.push((start, style))
        };
        st1.push((end, Style::Plain))
    }
}

/// Colours the next token with `style` if it is of `kind`.
pub open spec fn hl_take(s: Seq<u8>, st: Seq<(usize, Style)>, off: int, kind: TokenKind, style: Style) -> (Seq<(usize, Style)>, int) {
    let t = lex_spec(s, off);
    if t.kind == kind { (hl_add(st, t.start, t.end, style), t.end as int) } else { (st, off) }
}

/// A range after a column: its brackets, bounds and separator are all `Id`.
pub open spec fn hl_range(s: Seq<u8>, st: Seq<(usize, Style)>, off: int) -> (Seq<(usize, Style)>, int) {
    let t = lex_spec(s, off);
    if t.kind == TokenKind::OpenRange {
        let a = (hl_add(st, t.start, t.end, Style::Id), t.end as int);
        let b = hl_take(s, a.0, a.1, TokenKind::Nb, Style::Id);
        let c = hl_take(s, b.0, b.1, TokenKind::SepRange, Style::Id);
        let d = hl_take(s, c.0, c.1, TokenKind::Matches, Style::Id);
        let e = hl_take(s, d.0, d.1, TokenKind::Nb, Style::Id);
        hl_take(s, e.0, e.1, TokenKind::CloseRange, Style::Id)
    } else {
        (st, off)
    }
}

/// One list item: a pattern is `Regex`; a value is `Nb` or `Str`.
pub open spec fn hl_item(s: Seq<u8>, st: Seq<(usize, Style)>, off: int, regex: bool) -> (Seq<(usize, Style)>, int) {
    let t = lex_spec(s, off);
    if t.kind == TokenKind::Str || t.kind == TokenKind::Id {
        (hl_add(st, t.start, t.end, if regex { Style::Regex } else { Style::Str }), t.end as int)
    } else if t.kind == TokenKind::Nb {
        (hl_add(st, t.start, t.end, if regex { Style::Regex } else { Style::Nb }), t.end as int)
    } else {
        (st, t.end as int)
    }
}

/// The items after the first, each behind a `,`.
pub open spec fn hl_rest(s: Seq<u8>, st: Seq<(usize, Style)>, off: int, regex: bool) -> (Seq<(usize, Style)>, int)
    decreases s.len() - off,
{
    let t = lex_spec(s, off);
    if t.kind == TokenKind::SepList && off < t.end <= s.len() {
        let i = hl_item(s, st, t.end as int, regex);
        if off < i.1 <= s.len() { hl_rest(s, i.0, i.1, regex) } else { i }
    } else {
        (st, off)
    }
}

/// A list: `all`/`any` is `Action`, braces are plain.
pub open spec fn hl_list(s: Seq<u8>, st: Seq<(usize, Style)>, off: int, regex: bool) -> (Seq<(usize, Style)>, int) {
    let k = lex_spec(s, off).kind;
    let a = if k is Match { hl_take(s, st, off, k, Style::Action) } else { (st, off) };
    let b = hl_take(s, a.0, a.1, TokenKind::OpenList, Style::Plain);
    let c = hl_item(s, b.0, b.1, regex);
    let d = hl_rest(s, c.0, c.1, regex);
    hl_take(s, d.0, d.1, TokenKind::CloseList, Style::Plain)
}

/// An action: the column is `Id`, the operator `Action`, then its list.
pub open spec fn hl_action(s: Seq<u8>, st: Seq<(usize, Style)>, off: int) -> (Seq<(usize, Style)>, int) {
    let t = lex_spec(s, off);
    let st1 = if t.kind == TokenKind::Nb { hl_add(st, t.start, t.end, Style::Id) } else { st };
    let a = hl_range(s, st1, t.end as int);
    let t2 = lex_spec(s, a.1);
    match t2.kind {
        TokenKind::Matches => hl_list(s, hl_add(a.0, t2.start, t2.end, Style::Action), t2.end as int, true),
        TokenKind::Cmp(_) => hl_list(s, hl_add(a.0, t2.start, t2.end, Style::Action), t2.end as int, false),
        _ => a,
    }
}

/// An expression: `not` and `&&`/`||` are `Logi`; it stops at the end.
pub open spec fn hl_expr(s: Seq<u8>, st: Seq<(usize, Style)>, off: int) -> (Seq<(usize, Style)>, int)
    decreases s.len() - off,
{
    let t = lex_spec(s, off);
    if t.kind == TokenKind::Not {
        if off < t.end <= s.len() { hl_expr(s, hl_add(st, t.start, t.end, Style::Logi), t.end as int) } else { (st, off) }
    } else if t.kind == TokenKind::OpenExpr {
        if off < t.end <= s.len() {
            let a = hl_expr(s, hl_add(st, t.start, t.end, Style::Plain), t.end as int);
            hl_take(s, a.0, a.1, TokenKind::CloseExpr, Style::Plain)
        } else {
            (st, off)
        }
    } else {
        let a = hl_action(s, st, off);
        let t2 = lex_spec(s, a.1);
        if t2.kind == TokenKind::Eof {
            (a.0, t2.end as int)
        } else {
            let st2 = if t2.kind is Logi { hl_add(a.0, t2.start, t2.end, Style::Logi) } else { a.0 };
            if off < t2.end <= s.len() { hl_expr(s, st2, t2.end as int) } else { (st2, t2.end as int) }
        }
    }
}

/// The colouring of the filter written `s`: each token's style from where
/// it stands in the grammar, up to where the text stops making sense.
pub open spec fn highlight_spec(s: Seq<u8>) -> Seq<(usize, Style)> {
    hl_expr(s, seq![(0usize, Style::Plain)], 0).0
}

} // verus!
