use crate::record::NestedString;
use vstd::prelude::*;

verus! {

/// The records on screen, each with its ordinal. Buffers are reused from
/// one draw to the next, and a record still on screen is not read again.
pub struct Grid {
    rows: Vec<(u32, NestedString)>,
    len: usize,
}

impl Grid {
    /// The ordinals of the rows read in this pass.
    pub closed spec fn lines(&self) -> Seq<u32> {
        Seq::new(self.len as nat, |i: int| self.rows@[i].0)
    }

    pub closed spec fn wf(&self) -> bool {
        &&& self.len <= self.rows@.len()
        &&& forall|i: int| 0 <= i < self.rows@.len() ==> (#[trigger] self.rows@[i]).1.wf()
    }

    pub fn new() -> (r: Grid)
        ensures
            r.wf(),
            r.lines().len() == 0,
    {
        Grid { rows: Vec::new(), len: 0 }
    }

    /// Starts a pass: no row is read yet.
    pub fn begin(&mut self)
        requires
            old(self).wf(),
        ensures
            final(self).wf(),
            final(self).lines().len() == 0,
    {
        self.len = 0;
    }

    /// Looks for the record `line` among the rows of the last pass not yet
    /// used in this one; if it is there it becomes the next row and `true`
    /// is returned.
    pub fn reuse(&mut self, line: u32) -> (r: bool)
        requires
            old(self).wf(),
        ensures
            final(self).wf(),
            r ==> final(self).lines() == old(self).lines().push(line),
            !r ==> final(self).lines() == old(self).lines(),
    {
        let mut pos = self.len;
        while pos < self.rows.len()
            invariant
                self.len <= pos <= self.rows@.len(),
                self.wf(),
                self.rows@ == old(self).rows@,
                self.len == old(self).len,
            decreases self.rows@.len() - pos,
        {
            if self.rows[pos].0 == line {
                let ghost before = self.rows@;
                if pos != self.len {
                    let row = self.rows.remove(pos);
                    self.rows.insert(self.len, row);
                    proof {
                        let l = self.len as int;
                        assert forall|i: int| 0 <= i < self.rows@.len() implies (#[trigger] self.rows@[i]).1.wf() by {
                            if i < l {
                                assert(self.rows@[i] == before[i]);
                            } else if i == l {
                                assert(self.rows@[i] == before[pos as int]);
                            } else if i <= pos {
                                assert(self.rows@[i] == before[i - 1]);
                            } else {
                                assert(self.rows@[i] == before[i]);
                            }
                        }
                        assert forall|i: int| 0 <= i < l implies self.rows@[i] == before[i] by {}
                    }
                }
                proof {
                    assert(self.rows@[self.len as int].0 == line);
                }
                self.len = self.len + 1;
                proof {
                    assert(self.lines() =~= old(self).lines().push(line));
                }
                return true;
            }
            pos = pos + 1;
        }
        false
    }

    /// A buffer to read the next row into: a row of an earlier pass that is
    /// no longer on screen, or a new one.
    pub fn take_buffer(&mut self) -> (r: NestedString)
        requires
            old(self).wf(),
        ensures
            final(self).wf(),
            final(self).lines() == old(self).lines(),
            r.wf(),
    {
        if self.len < self.rows.len() {
            let ghost before = self.rows@;
            let (_, rec) = self.rows.remove(self.len);
            proof {
                assert(before[self.len as int].1.wf());
                assert forall|i: int| 0 <= i < self.rows@.len() implies (#[trigger] self.rows@[i]).1.wf() by {
                    if i < self.len {
                        assert(self.rows@[i] == before[i]);
                    } else {
                        assert(self.rows@[i] == before[i + 1]);
                    }
                }
                assert(self.lines() =~= old(self).lines());
            }
            rec
        } else {
            NestedString::new()
        }
    }

    /// Adds the record `rec`, read for `line`, as the next row.
    pub fn push_row(&mut self, line: u32, rec: NestedString)
        requires
            old(self).wf(),
            rec.wf(),
        ensures
            final(self).wf(),
            final(self).lines() == old(self).lines().push(line),
    {
        let ghost before = self.rows@;
        self.rows.insert(self.len, (line, rec));
        proof {
            assert forall|i: int| 0 <= i < self.rows@.len() implies (#[trigger] self.rows@[i]).1.wf() by {
                if i < self.len {
                    assert(self.rows@[i] == before[i]);
                } else if i > self.len {
                    assert(self.rows@[i] == before[i - 1]);
                }
            }
        }
        let _n = self.rows.len();
        self.len = self.len + 1;
        proof {
            assert(self.lines() =~= old(self).lines().push(line));
        }
    }

    /// The rows read in this pass.
    pub fn rows(&self) -> (r: &[(u32, NestedString)])
        requires
            self.wf(),
        ensures
            r@.len() == self.lines().len(),
            forall|i: int| 0 <= i < r@.len() ==> (#[trigger] r@[i]).0 == self.lines()[i] && r@[i].1.wf(),
    {
        &self.rows.as_slice()[0..self.len]
    }
}

} // verus!
