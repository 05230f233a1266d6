use bstr::ByteSlice;
use vstd::prelude::*;

verus! {

#[verifier::external_type_specification]
#[verifier::external_body]
pub struct ExCsvCoreReader(csv_core::Reader);

/// What one call of the streaming decoder reported.
#[derive(Clone, Copy, Debug, PartialEq, Eq, Structural)]
pub enum Decoded {
    /// The input ran out inside a record.
    InputEmpty,
    /// The byte buffer is full.
    OutputFull,
    /// The field-end buffer is full.
    OutputEndsFull,
    /// A record ended.
    Record,
    /// No record is left.
    End,
}

/// Relies on csv_core::Reader::read_record: it writes at most the room it is
/// given, reads at most the input it is given, and reports `End` only for an
/// empty input or for an input that is exactly a UTF-8 byte-order mark,
/// which a fresh reader strips first. A fresh reader (new or reset, not
/// called since) given an empty input starts no record: it reports `End`
/// and uses and writes nothing.
#[verifier::external_body]
fn decode_chunk(
    dec: &mut Decoder,
    input: &[u8],
    out: &mut Vec<u8>,
    out_from: usize,
    ends: &mut Vec<usize>,
    ends_from: usize,
) -> (r: (Decoded, usize, usize, usize))
    requires
        out_from <= old(out)@.len(),
        ends_from <= old(ends)@.len(),
    ensures
        final(out)@.len() == old(out)@.len(),
        final(ends)@.len() == old(ends)@.len(),
        final(out)@.subrange(0, out_from as int) == old(out)@.subrange(0, out_from as int),
        final(ends)@.subrange(0, ends_from as int) == old(ends)@.subrange(0, ends_from as int),
        r.1 <= input@.len(),
        r.2 <= old(out)@.len() - out_from,
        r.3 <= old(ends)@.len() - ends_from,
        r.0 == Decoded::End ==> input@.len() == 0 || input@ == seq![0xEFu8, 0xBB, 0xBF],
        old(dec).fresh() && input@.len() == 0 ==> r == (Decoded::End, 0usize, 0usize, 0usize),
        final(dec).delimiter_spec() == old(dec).delimiter_spec(),
{
    let (res, nin, nout, nend) = dec.rdr.read_record(input, &mut out[out_from..], &mut ends[ends_from..]);
    let res = match res {
        csv_core::ReadRecordResult::InputEmpty => Decoded::InputEmpty,
        csv_core::ReadRecordResult::OutputFull => Decoded::OutputFull,
        csv_core::ReadRecordResult::OutputEndsFull => Decoded::OutputEndsFull,
        csv_core::ReadRecordResult::Record => Decoded::Record,
        csv_core::ReadRecordResult::End => Decoded::End,
    };
    (res, nin, nout, nend)
}

/// Relies on csv_core::ReaderBuilder: a decoder that splits fields at
/// `delimiter`.
#[verifier::external_body]
fn new_csv_reader(delimiter: u8) -> csv_core::Reader {
    csv_core::ReaderBuilder::new().delimiter(delimiter).build()
}

/// Relies on csv_core::Reader::reset: the decoder forgets where it was.
#[verifier::external_body]
fn reset_csv_reader(rdr: &mut csv_core::Reader) {
    rdr.reset()
}

/// The bytes of `b` without Unicode white space at either end.
pub uninterp spec fn trimmed(b: Seq<u8>) -> Seq<u8>;

/// Relies on bstr's ByteSlice::trim: a part of `b` without the white space
/// at both ends.
#[verifier::external_body]
pub(crate) fn trim_bytes(b: &[u8]) -> (r: &[u8])
    ensures
        r@ == trimmed(b@),
        r@.len() <= b@.len(),
{
    b.trim()
}

/// A streaming decoder of delimited records.
pub struct Decoder {
    rdr: csv_core::Reader,
    delimiter: u8,
    /// Whether no input was handed over since it was made or reset.
    fresh: Ghost<bool>,
}

impl Decoder {
    pub closed spec fn delimiter_spec(&self) -> u8 {
        self.delimiter
    }

    /// Whether no input was handed over since it was made or reset.
    pub closed spec fn fresh(&self) -> bool {
        self.fresh@
    }

    pub fn new(delimiter: u8) -> (r: Decoder)
        ensures
            r.delimiter_spec() == delimiter,
            r.fresh(),
    {
        Decoder { rdr: new_csv_reader(delimiter), delimiter, fresh: Ghost(true) }
    }

    pub fn delimiter(&self) -> (r: u8)
        ensures
            r == self.delimiter_spec(),
    {
        self.delimiter
    }

    /// Forgets any partly decoded record, as before a seek.
    pub fn reset(&mut self)
        ensures
            final(self).delimiter_spec() == old(self).delimiter_spec(),
            final(self).fresh(),
    {
        reset_csv_reader(&mut self.rdr);
        self.fresh = Ghost(true);
    }
}

/// Initial room of a record's byte buffer.
pub const BUF_LEN: usize = 8192;

/// Initial room of a record's field-end array.
pub const BOUNDS_LEN: usize = 50;

/// A vector whose backing storage is always filled, so that the room past
/// its length can be written to without zeroing it first.
pub struct InitVec<T, const N: usize> {
    buff: Vec<T>,
    len: usize,
}

impl<T: Default + Copy, const N: usize> InitVec<T, N> {
    /// The elements in use.
    pub closed spec fn view(&self) -> Seq<T> {
        self.buff@.subrange(0, self.len as int)
    }

    /// The size of the backing storage.
    pub closed spec fn room(&self) -> nat {
        self.buff@.len()
    }

    pub closed spec fn wf(&self) -> bool {
        &&& self.len <= self.buff@.len()
        &&& N <= self.buff@.len()
    }

    /// An empty vector with room for `N` elements.
    pub fn new() -> (r: Self)
        ensures
            r.wf(),
            r@.len() == 0,
            r.room() == N,
    {
        let mut buff: Vec<T> = Vec::new();
        let mut i: usize = 0;
        while i < N
            invariant
                i <= N,
                buff@.len() == i,
            decreases N - i,
        {
            buff.push(T::default());
            i = i + 1;
        }
        InitVec { buff, len: 0 }
    }

    pub fn len(&self) -> (r: usize)
        requires
            self.wf(),
        ensures
            r == self@.len(),
    {
        self.len
    }

    /// The size of the backing storage.
    pub fn capacity(&self) -> (r: usize)
        ensures
            r == self.room(),
    {
        self.buff.len()
    }

    /// How many elements fit past the used ones without growing.
    pub fn unused(&self) -> (r: usize)
        requires
            self.wf(),
        ensures
            r == self.room() - self@.len(),
    {
        self.buff.len() - self.len
    }

    /// The element at `i`, which may lie in the unused room.
    pub fn get(&self, i: usize) -> (r: T)
        requires
            self.wf(),
            i < self.room(),
        ensures
            i < self@.len() ==> r == self@[i as int],
    {
        self.buff[i]
    }

    /// Writes `v` at `i`, which may lie in the unused room.
    pub fn set(&mut self, i: usize, v: T)
        requires
            old(self).wf(),
            i < old(self).room(),
        ensures
            final(self).wf(),
            final(self).room() == old(self).room(),
            final(self)@.len() == old(self)@.len(),
            i < old(self)@.len() ==> final(self)@ == old(self)@.update(i as int, v),
            i >= old(self)@.len() ==> final(self)@ == old(self)@,
            final(self).get_spec(i as int) == v,
    {
        self.buff.set(i, v);
    }

    /// The element at `i` of the backing storage.
    pub closed spec fn get_spec(&self, i: int) -> T {
        self.buff@[i]
    }

    /// Counts `amount` more elements as used, growing when needed.
    pub fn advance(&mut self, amount: usize)
        requires
            old(self).wf(),
            N > 0,
            old(self)@.len() + amount <= usize::MAX / 2,
        ensures
            final(self).wf(),
            final(self)@.len() == old(self)@.len() + amount,
            final(self)@.subrange(0, old(self)@.len() as int) == old(self)@,
            final(self).room() >= old(self).room(),
            old(self)@.len() + amount <= old(self).room() ==> final(self).room() == old(self).room(),
            forall|i: int| 0 <= i < old(self).room() ==> final(self).get_spec(i) == old(self).get_spec(i),
    {
        let l = self.len + amount;
        self.set_len(l);
    }

    /// Sets the number of used elements, growing when needed.
    pub fn set_len(&mut self, len: usize)
        requires
            old(self).wf(),
            N > 0,
            len <= usize::MAX / 2,
        ensures
            final(self).wf(),
            final(self)@.len() == len,
            len <= old(self)@.len() ==> final(self)@ == old(self)@.subrange(0, len as int),
            len > old(self)@.len() ==> final(self)@.subrange(0, old(self)@.len() as int) == old(self)@,
            final(self).room() >= old(self).room(),
            len <= old(self).room() ==> final(self).room() == old(self).room(),
            final(self).room() < 2 * len || final(self).room() == old(self).room(),
            forall|i: int| 0 <= i < old(self).room() ==> final(self).get_spec(i) == old(self).get_spec(i),
    {
        while len > self.buff.len()
            invariant
                self.wf(),
                self.len == old(self).len,
                N > 0,
                len <= usize::MAX / 2,
                self.room() >= old(self).room(),
                self.room() < 2 * len || self.room() == old(self).room(),
                len <= old(self).room() ==> self.room() == old(self).room(),
                forall|i: int| 0 <= i < old(self).room() ==> self.get_spec(i) == old(self).get_spec(i),
            decreases 2 * len - self.room(),
        {
            let ghost before = *self;
            self.grow();
            assert(self@.len() == before@.len());
            assert(self.buff@.len() == 2 * before.buff@.len());
            assert(forall|i: int| 0 <= i < before.room() ==> self.get_spec(i) == before.get_spec(i));
        }
        self.len = len;
        assert forall|i: int| 0 <= i < old(self).len implies self.buff@[i] == old(self).buff@[i] by {
            assert(self.get_spec(i) == old(self).get_spec(i));
        }
        proof {
            if len > old(self).len {
                assert(self@.subrange(0, old(self)@.len() as int) =~= old(self)@);
            } else {
                assert(self@ =~= old(self)@.subrange(0, len as int));
            }
        }
    }

    /// Doubles the room.
    pub fn grow(&mut self)
        requires
            old(self).wf(),
            2 * old(self).room() <= usize::MAX,
        ensures
            final(self).wf(),
            final(self)@ == old(self)@,
            final(self).room() == 2 * old(self).room(),
            forall|i: int| 0 <= i < old(self).room() ==> final(self).get_spec(i) == old(self).get_spec(i),
    {
        let n = self.buff.len();
        let mut i: usize = 0;
        let ghost b = self.buff@;
        while i < n
            invariant
                self.wf(),
                self.len == old(self).len,
                i <= n,
                n == b.len(),
                self.buff@.len() == b.len() + i,
                b == old(self).buff@,
                2 * b.len() <= usize::MAX,
                forall|j: int| 0 <= j < b.len() ==> self.buff@[j] == b[j],
            decreases n - i,
        {
            self.buff.push(T::default());
            i = i + 1;
        }
        assert(self@ =~= old(self)@);
    }
}

/// The largest room a record's buffers may grow to.
pub const ROOM_MAX: usize = usize::MAX / 4;

/// Whether `b` is non-decreasing, starts at 0 and ends at `len`.
pub open spec fn bounds_ok(b: Seq<usize>, len: nat) -> bool {
    &&& b.len() >= 1
    &&& b[0] == 0
    &&& b[b.len() - 1] == len
    &&& forall|i: int, j: int| 0 <= i <= j < b.len() ==> b[i] <= b[j]
}

/// One delimited record: all fields share one byte buffer, and field `i`
/// spans `bounds[i]..bounds[i + 1]`.
pub struct NestedString {
    buff: InitVec<u8, BUF_LEN>,
    bounds: InitVec<usize, BOUNDS_LEN>,
}

impl NestedString {
    /// The record's byte buffer.
    pub closed spec fn bytes(&self) -> Seq<u8> {
        self.buff@
    }

    /// The record's field offsets; one more than there are fields.
    pub closed spec fn offsets(&self) -> Seq<usize> {
        self.bounds@
    }

    /// Room and buffers in a usable state, a record complete or not.
    pub closed spec fn inv(&self) -> bool {
        &&& self.buff.wf()
        &&& self.bounds.wf()
        &&& self.bounds@.len() >= 1
        &&& self.buff.room() <= ROOM_MAX
        &&& self.bounds.room() <= ROOM_MAX
    }

    /// A complete record.
    pub open spec fn wf(&self) -> bool {
        &&& self.inv()
        &&& bounds_ok(self.offsets(), self.bytes().len())
    }

    /// The fields, untrimmed.
    pub open spec fn view(&self) -> Seq<Seq<u8>> {
        Seq::new(
            (self.offsets().len() - 1) as nat,
            |i: int| self.bytes().subrange(self.offsets()[i] as int, self.offsets()[i + 1] as int),
        )
    }

    /// A record with no field.
    pub fn new() -> (r: NestedString)
        ensures
            r.wf(),
            r@.len() == 0,
    {
        let mut bounds: InitVec<usize, BOUNDS_LEN> = InitVec::new();
        bounds.set_len(1);
        bounds.set(0, 0);
        let r = NestedString { buff: InitVec::new(), bounds };
        assert(r.offsets() =~= seq![0usize]);
        r
    }

    /// Empties the record before a new one is decoded into it.
    pub fn clear(&mut self)
        requires
            old(self).inv(),
        ensures
            final(self).wf(),
            final(self)@.len() == 0,
    {
        self.buff.set_len(0);
        self.bounds.set_len(1);
        self.bounds.set(0, 0);
        assert(self.offsets() =~= seq![0usize]);
    }

    /// Hands `input` to the decoder and stores what it produced. Returns how
    /// many bytes of `input` were used and whether the record is complete,
    /// in which case it is well formed. An empty `input` means that no data
    /// is left.
    pub fn feed(&mut self, dec: &mut Decoder, input: &[u8]) -> (r: (usize, bool))
        requires
            old(self).inv(),
        ensures
            final(self).inv(),
            r.0 <= input@.len(),
            r.1 ==> final(self).wf(),
            final(dec).delimiter_spec() == old(dec).delimiter_spec(),
            !final(dec).fresh(),
            old(dec).fresh() && input@.len() == 0 && old(self).offsets().len() == 1 ==> r == (0usize, true)
                && final(self)@.len() == 0,
    {
        let out_from = self.buff.len;
        let ends_from = self.bounds.len;
        let (res, nin, nout, nend) = decode_chunk(
            dec,
            input,
            &mut self.buff.buff,
            out_from,
            &mut self.bounds.buff,
            ends_from,
        );
        dec.fresh = Ghost(false);
        proof {
            assert(self.bounds.buff@.subrange(0, 1) == old(self).bounds.buff@.subrange(0, 1));
        }
        self.buff.advance(nout);
        self.bounds.advance(nend);
        match res {
            Decoded::InputEmpty => (nin, false),
            Decoded::OutputFull => {
                if self.buff.capacity() > ROOM_MAX / 2 {
                    // The record is too long to hold: keep what was decoded.
                    self.finish();
                    return (nin, true);
                }
                self.buff.grow();
                (nin, false)
            },
            Decoded::OutputEndsFull => {
                if self.bounds.capacity() > ROOM_MAX / 2 {
                    self.finish();
                    return (nin, true);
                }
                self.bounds.grow();
                (nin, false)
            },
            _ => {
                self.finish();
                (nin, true)
            },
        }
    }

    /// Makes the decoded field ends a well-formed record: each end is held
    /// between the previous one and the end of the bytes, the bytes stop at
    /// the last end, and an empty field after a trailing delimiter is
    /// dropped.
    fn finish(&mut self)
        requires
            old(self).inv(),
        ensures
            final(self).wf(),
            old(self).offsets().len() == 1 ==> final(self)@.len() == 0,
    {
        let n = self.bounds.len();
        let blen = self.buff.len();
        self.bounds.set(0, 0);
        let mut i: usize = 1;
        while i < n
            invariant
                self.bounds.wf(),
                self.bounds@.len() == n,
                n >= 1,
                1 <= i <= n,
                self.buff.wf(),
                self.buff@.len() == blen,
                self.bounds@[0] == 0,
                self.bounds.room() == old(self).bounds.room(),
                self.buff.room() == old(self).buff.room(),
                forall|a: int, b: int| 0 <= a <= b < i ==> self.bounds@[a] <= self.bounds@[b],
                forall|a: int| 0 <= a < i ==> self.bounds@[a] <= blen,
            decreases n - i,
        {
            let prev = self.bounds.get(i - 1);
            let mut b = self.bounds.get(i);
            if b < prev {
                b = prev;
            }
            if b > blen {
                b = blen;
            }
            self.bounds.set(i, b);
            i = i + 1;
        }
        let last = self.bounds.get(n - 1);
        self.buff.set_len(last);
        assert(self.bounds@[n - 1] == self.buff@.len());
        if n > 2 && self.bounds.get(n - 1) == self.bounds.get(n - 2) {
            self.bounds.set_len(n - 1);
            assert(self.bounds@[n - 2] == self.buff@.len());
        }

    }

    /// Decodes one record from the start of `input`, where the whole of the
    /// remaining data lies. Returns how many bytes it used; 0 means that no
    /// record was left.
    pub fn read_from(&mut self, dec: &mut Decoder, input: &[u8]) -> (r: usize)
        requires
            old(self).inv(),
        ensures
            final(self).wf(),
            r <= input@.len(),
            final(dec).delimiter_spec() == old(dec).delimiter_spec(),
            old(dec).fresh() && input@.len() == 0 ==> r == 0 && final(self)@.len() == 0,
    {
        self.clear();
        let mut pos: usize = 0;
        // Each call uses input or makes room; no record needs more calls.
        let mut fuel: usize = if input.len() > (usize::MAX - 64) / 4 { usize::MAX } else { input.len() * 4 + 64 };
        loop
            invariant
                self.inv(),
                pos <= input@.len(),
                dec.delimiter_spec() == old(dec).delimiter_spec(),
                old(dec).fresh() && input@.len() == 0 ==> dec.fresh() && self.offsets().len() == 1 && fuel > 0 && pos == 0,
            decreases fuel,
        {
            if fuel == 0 {
                self.finish();
                return pos;
            }
            fuel = fuel - 1;
            let rest = &input[pos..input.len()];
            proof {
                assert(rest@.len() == input@.len() - pos);
            }
            let (used, done) = self.feed(dec, rest);
            pos = pos + used;
            if done {
                return pos;
            }
        }
    }

    /// The number of fields.
    pub fn len(&self) -> (r: usize)
        requires
            self.wf(),
        ensures
            r == self@.len(),
    {
        self.bounds.len() - 1
    }

    /// Field `idx` as it was decoded.
    pub fn get_raw(&self, idx: usize) -> (r: &[u8])
        requires
            self.wf(),
            idx < self@.len(),
        ensures
            r@ == self@[idx as int],
    {
        let s = self.bounds.get(idx);
        let e = self.bounds.get(idx + 1);
        &self.buff.buff.as_slice()[s..e]
    }

    /// Field `idx` without white space at either end, if there is one.
    pub fn get(&self, idx: usize) -> (r: Option<&[u8]>)
        requires
            self.wf(),
        ensures
            idx < self@.len() ==> r is Some && r->0@ == trimmed(self@[idx as int]),
            idx >= self@.len() ==> r is None,
    {
        if idx < self.len() {
            Some(trim_bytes(self.get_raw(idx)))
        } else {
            None
        }
    }
}

/// A complete record's offsets start at 0, never decrease, and never pass
/// the end of its bytes.
pub proof fn lemma_record_offsets(r: &NestedString)
    requires
        r.wf(),
    ensures
        r.offsets()[0] == 0,
        forall|i: int| 0 <= i < r.offsets().len() - 1 ==> #[trigger] r.offsets()[i] <= r.offsets()[i + 1]
            && r.offsets()[i + 1] <= r.bytes().len(),
        r@.len() == r.offsets().len() - 1,
{
    assert forall|i: int| 0 <= i < r.offsets().len() - 1 implies #[trigger] r.offsets()[i] <= r.offsets()[i + 1]
        && r.offsets()[i + 1] <= r.bytes().len() by {
        let last = r.offsets().len() - 1;
        assert(r.offsets()[i + 1] <= r.offsets()[last]);
    }
}

} // verus!
