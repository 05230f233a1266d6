use crate::fmt::{guess_spec, Ty};
use crate::record::{trimmed, NestedString};
use vstd::prelude::*;

verus! {

/// The delimiters tried, in order of preference.
pub open spec fn candidates() -> Seq<u8> {
    seq![0x2Cu8, 0x3B, 0x3A, 0x7C, 0x5F]
}

/// The bytes of `s` before its first line feed.
pub open spec fn first_line(s: Seq<u8>) -> Seq<u8>
    decreases s.len(),
{
    if s.len() == 0 || s[0] == 0x0A { Seq::empty() } else { seq![s[0]] + first_line(s.drop_first()) }
}

/// How often `b` occurs in `s`.
pub open spec fn occurrences(s: Seq<u8>, b: u8) -> nat
    decreases s.len(),
{
    if s.len() == 0 { 0 } else { occurrences(s.drop_last(), b) + if s.last() == b { 1nat } else { 0nat } }
}

/// Whether candidate `k` occurs at least as often in `line` as each
/// candidate before it, and more often than each after it.
pub open spec fn is_pick(line: Seq<u8>, k: int) -> bool {
    &&& 0 <= k < 5
    &&& forall|j: int| 0 <= j < k ==> occurrences(line, candidates()[j]) < occurrences(line, candidates()[k])
    &&& forall|j: int| k < j < 5 ==> occurrences(line, candidates()[j]) <= occurrences(line, candidates()[k])
}

/// The delimiter of the data starting with `s`: the candidate that occurs
/// most often on the first line, the earliest on a tie (so `,` when none
/// occurs).
pub fn sniff_delimiter(s: &[u8]) -> (r: u8)
    ensures
        exists|k: int| is_pick(first_line(s@), k) && r == candidates()[k],
{
    let n = s.len();
    let mut counts: Vec<usize> = vec![0, 0, 0, 0, 0];
    let mut i: usize = 0;
    let ghost cands = candidates();
    proof {
        assert(s@.subrange(0, n as int) =~= s@);
        assert(s@.subrange(0, 0) + first_line(s@) =~= first_line(s@));
        assert forall|j: int| 0 <= j < 5 implies #[trigger] counts@[j] == occurrences(s@.subrange(0, 0), cands[j]) by {}
    }
    while i < n && s[i] != 0x0A
        invariant
            i <= n == s@.len(),
            counts@.len() == 5,
            cands == candidates(),
            first_line(s@) == s@.subrange(0, i as int) + first_line(s@.subrange(i as int, n as int)),
            forall|j: int| 0 <= j < 5 ==> #[trigger] counts@[j] == occurrences(s@.subrange(0, i as int), cands[j]),
            forall|j: int| 0 <= j < 5 ==> counts@[j] <= i,
        decreases n - i,
    {
        let b = s[i];
        let ghost pre = s@.subrange(0, i as int);
        proof {
            let rest = s@.subrange(i as int, n as int);
            assert(rest.drop_first() =~= s@.subrange(i + 1, n as int));
            assert(seq![rest[0]] + first_line(rest.drop_first()) == first_line(rest));
            assert(s@.subrange(0, i as int) + seq![b] =~= s@.subrange(0, i + 1));
            assert(s@.subrange(0, i + 1) =~= pre + seq![b]);
            assert((pre + seq![b]).drop_last() =~= pre);
        }
        let mut j: usize = 0;
        while j < 5
            invariant
                j <= 5,
                i < n == s@.len(),
                b == s@[i as int],
                cands == candidates(),
                pre == s@.subrange(0, i as int),
                counts@.len() == 5,
                forall|q: int| 0 <= q < j ==> #[trigger] counts@[q] == occurrences(s@.subrange(0, i + 1), cands[q]),
                forall|q: int| j <= q < 5 ==> #[trigger] counts@[q] == occurrences(pre, cands[q]),
                forall|q: int| 0 <= q < j ==> counts@[q] <= i + 1,
                forall|q: int| j <= q < 5 ==> counts@[q] <= i,
            decreases 5 - j,
        {
            let d = candidate(j);
            proof {
                assert(s@.subrange(0, i + 1).drop_last() =~= pre);
            }
            if b == d {
                counts.set(j, counts[j] + 1);
            }
            j = j + 1;
        }
        i = i + 1;
    }
    proof {
        let rest = s@.subrange(i as int, n as int);
        assert(first_line(rest) =~= Seq::<u8>::empty());
        assert(first_line(s@) =~= s@.subrange(0, i as int));
        assert forall|q: int| 0 <= q < 5 implies #[trigger] counts@[q] == occurrences(first_line(s@), candidates()[q]) by {
            assert(counts@[q] == occurrences(s@.subrange(0, i as int), cands[q]));
        }
    }
    let mut best: usize = 0;
    let mut j: usize = 1;
    while j < 5
        invariant
            1 <= j <= 5,
            best < j,
            counts@.len() == 5,
            forall|q: int| 0 <= q < 5 ==> #[trigger] counts@[q] == occurrences(first_line(s@), candidates()[q]),
            forall|q: int| 0 <= q < best ==> counts@[q] < counts@[best as int],
            forall|q: int| best < q < j ==> counts@[q] <= counts@[best as int],
        decreases 5 - j,
    {
        if counts[j] > counts[best] {
            best = j;
        }
        j = j + 1;
    }
    proof {
        let line = first_line(s@);
        assert forall|q: int| 0 <= q < best implies occurrences(line, candidates()[q]) < occurrences(line, candidates()[best as int]) by {
            assert(counts@[q] == occurrences(line, candidates()[q]));
            assert(counts@[best as int] == occurrences(line, candidates()[best as int]));
        }
        assert forall|q: int| best < q < 5 implies occurrences(line, candidates()[q]) <= occurrences(line, candidates()[best as int]) by {
            assert(counts@[q] == occurrences(line, candidates()[q]));
            assert(counts@[best as int] == occurrences(line, candidates()[best as int]));
        }
        assert(is_pick(line, best as int));
    }
    candidate(best)
}

fn candidate(j: usize) -> (r: u8)
    requires
        j < 5,
    ensures
        r == candidates()[j as int],
{
    if j == 0 { 0x2C } else if j == 1 { 0x3B } else if j == 2 { 0x3A } else if j == 3 { 0x7C } else { 0x5F }
}

/// The guessed type of each field, trimmed.
pub open spec fn field_types(r: Seq<Seq<u8>>) -> Seq<Ty> {
    Seq::new(r.len(), |i: int| guess_spec(trimmed(r[i])))
}

/// How many fields of `r` are empty once trimmed.
pub open spec fn empty_fields(r: Seq<Seq<u8>>) -> nat
    decreases r.len(),
{
    if r.len() == 0 { 0 } else { empty_fields(r.drop_last()) + if trimmed(r.last()).len() == 0 { 1nat } else { 0nat } }
}

pub open spec fn all_str(t: Seq<Ty>) -> bool {
    forall|i: int| 0 <= i < t.len() ==> t[i] == Ty::Str
}

/// Whether the record `h` is a header above the record `r1`: not when two
/// of its fields are empty; yes when it is all strings and `r1` is not;
/// not when both have the same types and these are not all strings; yes
/// otherwise.
pub open spec fn is_header(h: Seq<Seq<u8>>, r1: Seq<Seq<u8>>) -> bool {
    let th = field_types(h);
    let tr = field_types(r1);
    if empty_fields(h) >= 2 {
        false
    } else if all_str(th) && !all_str(tr) {
        true
    } else if th == tr && !all_str(th) {
        false
    } else {
        true
    }
}

/// The trimmed types of the fields of `r`, and how many are empty.
fn types_of(r: &NestedString) -> (out: (Vec<Ty>, usize))
    requires
        r.wf(),
    ensures
        out.0@ == field_types(r@),
        out.1 == empty_fields(r@),
{
    let n = r.len();
    let mut tys: Vec<Ty> = Vec::new();
    let mut empty: usize = 0;
    let mut i: usize = 0;
    while i < n
        invariant
            r.wf(),
            i <= n == r@.len(),
            tys@ == field_types(r@.subrange(0, i as int)),
            empty == empty_fields(r@.subrange(0, i as int)),
            empty <= i,
        decreases n - i,
    {
        let f = match r.get(i) {
            Some(f) => f,
            None => &[],
        };
        proof {
            assert(r@.subrange(0, i + 1).drop_last() =~= r@.subrange(0, i as int));
        }
        if f.len() == 0 {
            empty = empty + 1;
        }
        tys.push(Ty::guess(r.get_raw(i)));
        i = i + 1;
        assert(tys@ =~= field_types(r@.subrange(0, i as int)));
    }
    assert(r@.subrange(0, n as int) =~= r@);
    (tys, empty)
}

fn all_str_exec(t: &Vec<Ty>) -> (r: bool)
    ensures
        r == all_str(t@),
{
    let mut i: usize = 0;
    while i < t.len()
        invariant
            i <= t@.len(),
            forall|k: int| 0 <= k < i ==> t@[k] == Ty::Str,
        decreases t@.len() - i,
    {
        if !t[i].is_str() {
            return false;
        }
        i = i + 1;
    }
    true
}

fn same_types(a: &Vec<Ty>, b: &Vec<Ty>) -> (r: bool)
    ensures
        r == (a@ == b@),
{
    if a.len() != b.len() {
        return false;
    }
    let mut i: usize = 0;
    while i < a.len()
        invariant
            i <= a@.len() == b@.len(),
            forall|k: int| 0 <= k < i ==> a@[k] == b@[k],
        decreases a@.len() - i,
    {
        if a[i] != b[i] {
            return false;
        }
        i = i + 1;
    }
    assert(a@ =~= b@);
    true
}

/// Whether the first record `header` is a header above the record `first`.
pub fn sniff_has_header(header: &NestedString, first: &NestedString) -> (r: bool)
    requires
        header.wf(),
        first.wf(),
    ensures
        r == is_header(header@, first@),
{
    let (th, empty) = types_of(header);
    let (tr, _) = types_of(first);
    if empty >= 2 {
        false
    } else {
        let hs = all_str_exec(&th);
        if hs && !all_str_exec(&tr) {
            true
        } else if same_types(&th, &tr) && !hs {
            false
        } else {
            true
        }
    }
}

} // verus!
