use crate::record::NestedString;
use crate::size::{after_cmd, effective, ColSize, Constraint, SizeCmd};
use vstd::prelude::*;

verus! {

#[derive(Debug, Clone, Copy, PartialEq, Eq, Structural)]
pub enum ColsCmd {
    Hide,
    Left,
    Right,
}

/// Whether the elements of `s` are distinct and below `max`.
pub open spec fn order_ok(s: Seq<usize>, max: nat) -> bool {
    &&& forall|v: int| 0 <= v < s.len() ==> #[trigger] s[v] < max
    &&& forall|a: int, b: int| 0 <= a < b < s.len() ==> s[a] != s[b]
}

/// Which source columns are visible, in which order, and how wide.
pub struct Cols {
    headers: NestedString,
    map: Vec<usize>,
    size: ColSize,
    nb_col: usize,
    max_col: usize,
}

impl Cols {
    /// The source column shown at each visible position.
    pub closed spec fn order(&self) -> Seq<usize> {
        self.map@
    }

    pub closed spec fn sizes(&self) -> Seq<(usize, Constraint)> {
        self.size@
    }

    /// The most columns ever reported.
    pub closed spec fn max_cols_seen(&self) -> nat {
        self.max_col as nat
    }

    pub closed spec fn nb_col_spec(&self) -> nat {
        self.nb_col as nat
    }

    pub closed spec fn headers_spec(&self) -> NestedString {
        self.headers
    }

    /// Visible columns are distinct source columns that were seen, and each
    /// of those has a size.
    pub open spec fn wf(&self) -> bool {
        &&& order_ok(self.order(), self.max_cols_seen())
        &&& self.sizes().len() >= self.max_cols_seen()
        &&& self.headers_spec().wf()
    }

    pub fn new(headers: NestedString) -> (r: Cols)
        requires
            headers.wf(),
        ensures
            r.wf(),
            r.order().len() == 0,
            r.max_cols_seen() == 0,
            r.nb_col_spec() == 0,
    {
        Cols { headers, map: Vec::new(), size: ColSize::new(), nb_col: 0, max_col: 0 }
    }

    /// Takes the column count the index reports: columns never seen before
    /// become visible at the end, in their natural order.
    pub fn set_nb_cols(&mut self, nb_col: usize)
        requires
            old(self).wf(),
        ensures
            final(self).wf(),
            final(self).nb_col_spec() == nb_col,
            final(self).max_cols_seen() == if nb_col > old(self).max_cols_seen() { nb_col as nat } else { old(self).max_cols_seen() },
            final(self).order() == old(self).order() + Seq::new(
                (final(self).max_cols_seen() - old(self).max_cols_seen()) as nat,
                |i: int| (old(self).max_cols_seen() + i) as usize,
            ),
    {
        self.size.set_nb_cols(nb_col);
        let ghost start = self.map@;
        let mut i = self.max_col;
        if nb_col <= self.max_col {
            self.nb_col = nb_col;
            assert(self.map@ =~= start + Seq::new(0, |k: int| (self.max_col + k) as usize));
            return;
        }
        while i < nb_col
            invariant
                self.max_col == old(self).max_col,
                self.max_col <= i <= nb_col,
                self.map@ == start + Seq::new((i - self.max_col) as nat, |k: int| (self.max_col + k) as usize),
                start == old(self).map@,
                order_ok(start, self.max_col as nat),
                self.headers == old(self).headers,
                self.size@.len() >= nb_col,
                forall|v: int| 0 <= v < self.map@.len() ==> #[trigger] self.map@[v] < i,
                forall|a: int, b: int| 0 <= a < b < self.map@.len() ==> self.map@[a] != self.map@[b],
            decreases nb_col - i,
        {
            self.map.push(i);
            i = i + 1;
            assert(self.map@ =~= start + Seq::new((i - self.max_col) as nat, |k: int| (self.max_col + k) as usize));
        }
        self.nb_col = nb_col;
        if nb_col > self.max_col {
            self.max_col = nb_col;
        }
    }

    /// The number of visible columns.
    pub fn visible_col(&self) -> (r: usize)
        ensures
            r == self.order().len(),
    {
        self.map.len()
    }

    /// The column count last reported.
    pub fn nb_col(&self) -> (r: usize)
        ensures
            r == self.nb_col_spec(),
    {
        self.nb_col
    }

    /// The source column at visible position `idx`, and its header if the
    /// header record has that many fields.
    pub fn get_col(&self, idx: usize) -> (r: (usize, Option<&[u8]>))
        requires
            self.wf(),
            idx < self.order().len(),
        ensures
            r.0 == self.order()[idx as int],
            r.0 < self.headers_spec()@.len() ==> r.1 is Some,
            r.0 >= self.headers_spec()@.len() ==> r.1 is None,
    {
        let off = self.map[idx];
        (off, self.headers.get(off))
    }

    /// Hides, or moves left or right, the column at visible position `idx`.
    pub fn cmd(&mut self, idx: usize, cmd: ColsCmd)
        requires
            old(self).wf(),
        ensures
            final(self).wf(),
            final(self).max_cols_seen() == old(self).max_cols_seen(),
            final(self).sizes() == old(self).sizes(),
            idx >= old(self).order().len() ==> final(self).order() == old(self).order(),
            idx < old(self).order().len() ==> final(self).order() == match cmd {
                ColsCmd::Hide => old(self).order().remove(idx as int),
                ColsCmd::Left => if idx == 0 {
                    old(self).order()
                } else {
                    old(self).order().update(idx as int, old(self).order()[idx - 1]).update(idx - 1, old(self).order()[idx as int])
                },
                ColsCmd::Right => if idx + 1 >= old(self).order().len() {
                    old(self).order()
                } else {
                    old(self).order().update(idx as int, old(self).order()[idx + 1]).update(idx + 1, old(self).order()[idx as int])
                },
            },
    {
        if idx >= self.map.len() {
            return;
        }
        match cmd {
            ColsCmd::Hide => {
                self.map.remove(idx);
                proof {
                    let o = old(self).map@;
                    assert forall|a: int, b: int| 0 <= a < b < self.map@.len() implies self.map@[a] != self.map@[b] by {
                        let a2 = if a < idx { a } else { a + 1 };
                        let b2 = if b < idx { b } else { b + 1 };
                        assert(self.map@[a] == o[a2] && self.map@[b] == o[b2]);
                    }
                    assert forall|v: int| 0 <= v < self.map@.len() implies #[trigger] self.map@[v] < self.max_col by {
                        let v2 = if v < idx { v } else { v + 1 };
                        assert(self.map@[v] == o[v2]);
                    }
                }
            },
            ColsCmd::Left => {
                if idx > 0 {
                    self.swap(idx, idx - 1);
                }
            },
            ColsCmd::Right => {
                if idx < self.map.len() - 1 {
                    self.swap(idx, idx + 1);
                }
            },
        }
    }

    fn swap(&mut self, a: usize, b: usize)
        requires
            old(self).wf(),
            a < old(self).map@.len(),
            b < old(self).map@.len(),
            a != b,
        ensures
            final(self).wf(),
            final(self).max_col == old(self).max_col,
            final(self).size == old(self).size,
            final(self).map@ == old(self).map@.update(a as int, old(self).map@[b as int]).update(b as int, old(self).map@[a as int]),
    {
        let x = self.map[a];
        let y = self.map[b];
        self.map.set(a, y);
        self.map.set(b, x);
        proof {
            let o = old(self).map@;
            let perm = |i: int| if i == a { b as int } else if i == b { a as int } else { i };
            assert forall|i: int| 0 <= i < self.map@.len() implies self.map@[i] == o[perm(i)] by {}
            assert forall|i: int, j: int| 0 <= i < j < self.map@.len() implies self.map@[i] != self.map@[j] by {
                assert(self.map@[i] == o[perm(i)] && self.map@[j] == o[perm(j)]);
            }
            assert forall|v: int| 0 <= v < self.map@.len() implies #[trigger] self.map@[v] < self.max_col by {
                assert(self.map@[v] == o[perm(v)]);
            }
        }
    }

    pub fn set_headers(&mut self, headers: NestedString)
        requires
            old(self).wf(),
            headers.wf(),
        ensures
            final(self).wf(),
            final(self).headers_spec() == headers,
            final(self).order() == old(self).order(),
            final(self).sizes() == old(self).sizes(),
            final(self).max_cols_seen() == old(self).max_cols_seen(),
    {
        self.headers = headers;
    }

    fn offset(&self, idx: usize) -> (r: usize)
        requires
            self.wf(),
            idx < self.order().len(),
        ensures
            r == self.order()[idx as int],
            r < self.sizes().len(),
    {
        self.map[idx]
    }

    /// Raises the measured width of the column at visible position `idx` to
    /// at least `len`, and returns the width it gets.
    pub fn size(&mut self, idx: usize, len: usize) -> (r: usize)
        requires
            old(self).wf(),
            idx < old(self).order().len(),
        ensures
            final(self).wf(),
            final(self).order() == old(self).order(),
            final(self).max_cols_seen() == old(self).max_cols_seen(),
            ({
                let s = old(self).order()[idx as int] as int;
                let m = if old(self).sizes()[s].0 >= len { old(self).sizes()[s].0 } else { len };
                &&& final(self).sizes() == old(self).sizes().update(s, (m, old(self).sizes()[s].1))
                &&& r == effective(m, old(self).sizes()[s].1)
            }),
    {
        let off = self.offset(idx);
        self.size.register_size(off, len);
        self.get_size(idx)
    }

    fn get_size(&self, idx: usize) -> (r: usize)
        requires
            self.wf(),
            idx < self.order().len(),
        ensures
            r == effective(self.sizes()[self.order()[idx as int] as int].0, self.sizes()[self.order()[idx as int] as int].1),
    {
        let off = self.offset(idx);
        self.size.get_size(off)
    }

    /// Forgets every width and constraint.
    pub fn reset_size(&mut self)
        requires
            old(self).wf(),
        ensures
            final(self).wf(),
            final(self).order() == old(self).order(),
            final(self).max_cols_seen() == old(self).max_cols_seen(),
            final(self).sizes() == Seq::new(old(self).max_cols_seen(), |i: int| (0usize, Constraint::Constrained)),
    {
        self.size.reset();
        self.size.set_nb_cols(self.max_col);
        assert(self.size@ =~= Seq::new(self.max_col as nat, |i: int| (0usize, Constraint::Constrained)));
    }

    /// Forgets the measured widths, so that the next pass measures again.
    pub fn fit(&mut self)
        requires
            old(self).wf(),
        ensures
            final(self).wf(),
            final(self).order() == old(self).order(),
            final(self).max_cols_seen() == old(self).max_cols_seen(),
            final(self).sizes().len() == old(self).sizes().len(),
            forall|i: int| 0 <= i < final(self).sizes().len() ==> #[trigger] final(self).sizes()[i] == (0usize, old(self).sizes()[i].1),
    {
        self.size.fit();
    }

    /// Sets the constraint of the column at visible position `idx`.
    pub fn size_cmd(&mut self, idx: usize, cmd: SizeCmd)
        requires
            old(self).wf(),
        ensures
            final(self).wf(),
            final(self).order() == old(self).order(),
            final(self).max_cols_seen() == old(self).max_cols_seen(),
            idx >= old(self).order().len() ==> final(self).sizes() == old(self).sizes(),
            idx < old(self).order().len() ==> ({
                let s = old(self).order()[idx as int] as int;
                final(self).sizes() == old(self).sizes().update(
                    s,
                    (old(self).sizes()[s].0, after_cmd(effective(old(self).sizes()[s].0, old(self).sizes()[s].1), cmd)),
                )
            }),
    {
        if idx >= self.map.len() {
            return;
        }
        let off = self.offset(idx);
        self.size.cmd(off, cmd);
    }
}

/// Every command keeps the column view well formed: visible columns stay
/// distinct, below the most columns seen, and sized.
pub proof fn lemma_cols_invariant(c: Cols)
    requires
        c.wf(),
    ensures
        forall|v: int| 0 <= v < c.order().len() ==> #[trigger] c.order()[v] < c.max_cols_seen(),
        forall|a: int, b: int| 0 <= a < b < c.order().len() ==> c.order()[a] != c.order()[b],
        c.sizes().len() >= c.max_cols_seen(),
{
}

} // verus!
