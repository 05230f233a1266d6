use crate::filter::compiler::Filter;
use crate::filter::engine::{accepts, Engine};
use crate::record::{Decoder, NestedString};
use vstd::prelude::*;

verus! {

/// How many records the worker reads between two publications.
pub const SYNC_EVERY: u64 = 1000;

/// Whether `e` is a valid index: ordinals strictly increase and stay below
/// `ordinal`, offsets do not decrease and stay at or below `offset`.
pub open spec fn index_ok(e: Seq<(u32, u64)>, ordinal: nat, offset: nat) -> bool {
    &&& forall|a: int, b: int| 0 <= a < b < e.len() ==> e[a].0 < e[b].0 && e[a].1 <= e[b].1
    &&& forall|a: int| 0 <= a < e.len() ==> (#[trigger] e[a]).0 < ordinal && e[a].1 <= offset
}

/// Progress in percent of `read` bytes out of `len`, at most 100.
pub open spec fn progress_spec(read: u64, len: u64) -> u8 {
    let p = (read as int * 100) / (if len == 0 { 1 } else { len as int });
    if p <= 100 { p as u8 } else { 100 }
}

/// Progress in percent of `read` bytes out of `len`, at most 100.
pub fn progress(read: u64, len: u64) -> (r: u8)
    ensures
        r == progress_spec(read, len),
{
    let d: u128 = if len == 0 { 1 } else { len as u128 };
    let p: u128 = (read as u128 * 100) / d;
    if p <= 100 { p as u8 } else { 100 }
}

/// Progress never goes back while bytes are read.
pub proof fn lemma_progress_monotone(a: u64, b: u64, len: u64)
    requires
        a <= b,
    ensures
        progress_spec(a, len) <= progress_spec(b, len),
{
    let d: int = if len == 0 { 1 } else { len as int };
    assert(a as int * 100 <= b as int * 100) by (nonlinear_arith)
        requires a <= b;
    assert((a as int * 100) / d <= (b as int * 100) / d) by (nonlinear_arith)
        requires a as int * 100 <= b as int * 100, d > 0;
}

/// The worker's side of the index: the accepted records so far, and where
/// reading stands.
pub struct IndexBuilder {
    entries: Vec<(u32, u64)>,
    ordinal: u32,
    offset: u64,
    max_col: usize,
    /// Whether every record read so far was accepted.
    all: bool,
}

impl IndexBuilder {
    pub closed spec fn entries(&self) -> Seq<(u32, u64)> {
        self.entries@
    }

    /// The ordinal of the next record.
    pub closed spec fn ordinal(&self) -> nat {
        self.ordinal as nat
    }

    /// The offset of the next record.
    pub closed spec fn offset(&self) -> nat {
        self.offset as nat
    }

    pub closed spec fn max_col(&self) -> nat {
        self.max_col as nat
    }

    pub closed spec fn all_accepted(&self) -> bool {
        self.all
    }

    /// The index is valid, and holds every record read when each was
    /// accepted.
    pub open spec fn wf(&self) -> bool {
        &&& index_ok(self.entries(), self.ordinal(), self.offset())
        &&& self.entries().len() <= self.ordinal()
        &&& self.all_accepted() ==> self.entries().len() == self.ordinal()
    }

    /// An empty index whose first record starts at `offset`, with `nb_col`
    /// columns known from the header.
    pub fn new(offset: u64, nb_col: usize) -> (r: IndexBuilder)
        ensures
            r.wf(),
            r.entries().len() == 0,
            r.ordinal() == 0,
            r.offset() == offset,
            r.max_col() == nb_col,
            r.all_accepted(),
    {
        IndexBuilder { entries: Vec::new(), ordinal: 0, offset, max_col: nb_col, all: true }
    }

    /// Takes the next record, `amount` bytes long: it is indexed when the
    /// filter accepts it. Returns `None` when the ordinal or the offset would
    /// overflow, and else whether it is time to publish.
    pub fn push_record(&mut self, engine: &Engine, record: &NestedString, amount: usize) -> (r: Option<bool>)
        requires
            old(self).wf(),
            record.wf(),
            engine.filter.wf_values(),
            engine.filter.wf_links(),
        ensures
            final(self).wf(),
            r is None <==> (old(self).ordinal() >= u32::MAX || old(self).offset() + amount > u64::MAX),
            r is None ==> *final(self) == *old(self),
            r is Some ==> ({
                &&& final(self).entries() == if accepts(engine.filter, record@) {
                    old(self).entries().push((old(self).ordinal() as u32, old(self).offset() as u64))
                } else {
                    old(self).entries()
                }
                &&& final(self).ordinal() == old(self).ordinal() + 1
                &&& final(self).offset() == old(self).offset() + amount
                &&& final(self).max_col() == if record@.len() > old(self).max_col() { record@.len() } else { old(self).max_col() }
                &&& final(self).all_accepted() == (old(self).all_accepted() && accepts(engine.filter, record@))
                &&& r->0 == (final(self).ordinal() % SYNC_EVERY as nat == 0)
            }),
    {
        if self.ordinal == u32::MAX || self.offset > u64::MAX - amount as u64 {
            return None;
        }
        let ok = engine.check(record);
        if ok {
            self.entries.push((self.ordinal, self.offset));
        } else {
            self.all = false;
        }
        self.ordinal = self.ordinal + 1;
        self.offset = self.offset + amount as u64;
        let n = record.len();
        if n > self.max_col {
            self.max_col = n;
        }
        Some(self.ordinal as u64 % SYNC_EVERY == 0)
    }

    /// The number of indexed records.
    pub fn row_count(&self) -> (r: usize)
        ensures
            r == self.entries().len(),
    {
        self.entries.len()
    }

    pub fn offset_now(&self) -> (r: u64)
        ensures
            r == self.offset(),
    {
        self.offset
    }

    pub fn max_col_now(&self) -> (r: usize)
        ensures
            r == self.max_col(),
    {
        self.max_col
    }

    /// The entries from `start` on, to publish.
    pub fn entries_from(&self, start: usize) -> (r: Vec<(u32, u64)>)
        ensures
            start <= self.entries().len() ==> r@ == self.entries().subrange(start as int, self.entries().len() as int),
            start > self.entries().len() ==> r@.len() == 0,
    {
        let mut r: Vec<(u32, u64)> = Vec::new();
        let mut i = start;
        while i < self.entries.len()
            invariant
                start <= i <= self.entries@.len() || (i == start && start > self.entries@.len()),
                start <= self.entries@.len() ==> r@ == self.entries@.subrange(start as int, i as int),
                start > self.entries@.len() ==> r@.len() == 0,
            decreases self.entries@.len() - i,
        {
            r.push(self.entries[i]);
            i = i + 1;
            assert(r@ =~= self.entries@.subrange(start as int, i as int));
        }
        r
    }
}

/// With the identity filter, every record read is indexed.
pub proof fn lemma_identity_filter_indexes_all(b: &IndexBuilder)
    requires
        b.wf(),
        b.all_accepted(),
    ensures
        b.entries().len() == b.ordinal(),
{
}

/// Indexes the records of `input`, which starts at byte `offset` of the
/// source, past the header if there is one.
pub fn index_bytes(input: &[u8], delimiter: u8, filter: &Filter, offset: u64, nb_col: usize) -> (r: IndexBuilder)
    requires
        filter.wf_values(),
        filter.wf_links(),
    ensures
        r.wf(),
        filter.nodes@.len() == 0 ==> r.all_accepted(),
        input@.len() == 0 ==> r.ordinal() == 0 && r.entries().len() == 0 && r.offset() == offset,
{
    let mut dec = Decoder::new(delimiter);
    let engine = Engine::new(filter);
    let mut b = IndexBuilder::new(offset, nb_col);
    let mut record = NestedString::new();
    let mut pos: usize = 0;
    loop
        invariant_except_break
            input@.len() == 0 ==> dec.fresh(),
        invariant
            b.wf(),
            record.inv(),
            pos <= input@.len(),
            engine.filter == filter,
            filter.wf_values(),
            filter.wf_links(),
            filter.nodes@.len() == 0 ==> b.all_accepted(),
            input@.len() == 0 ==> pos == 0,
            input@.len() == 0 ==> b.ordinal() == 0 && b.entries().len() == 0 && b.offset() == offset,
        decreases input@.len() - pos,
    {
        let rest = &input[pos..input.len()];
        proof {
            assert(rest@.len() == input@.len() - pos);
        }
        let used = record.read_from(&mut dec, rest);
        if used == 0 {
            break;
        }
        if b.push_record(&engine, &record, used).is_none() {
            break;
        }
        pos = pos + used;
    }
    b
}

/// Any snapshot of the index: ordinals strictly increase, offsets do not
/// decrease, and there are no more rows than records read.
pub proof fn lemma_index_snapshot(b: &IndexBuilder)
    requires
        b.wf(),
    ensures
        forall|x: int, y: int| 0 <= x < y < b.entries().len() ==> b.entries()[x].0 < b.entries()[y].0
            && b.entries()[x].1 <= b.entries()[y].1,
        b.entries().len() <= b.ordinal(),
{
}

} // verus!
