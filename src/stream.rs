use vstd::prelude::*;

use std::collections::VecDeque;

use crate::model::{
    initial_state, is_canonical_unit, lemma_scan_byte_inv, lemma_trailing_zeros_bound, scan,
    scan_byte, scan_inv, units_of, lemma_units_in_stream_order, ScanState,
};
use crate::nal_unit::{lemma_unit_code_bound, H264NalUnit};

verus! {

/// Bytes reserved up front for the accumulation buffer (4 MiB).
pub const INITIAL_CAPACITY: usize = 4 << 20;

/// Splits the bytes read from `reader` into NAL units.
///
/// Whoever drives the reader hands each chunk it reads to [`H264Stream::feed`]
/// and takes the completed units, oldest first, from
/// [`H264Stream::pop_unit`].
pub struct H264Stream<R> {
    /// The byte source. The stream only holds it for its driver.
    pub reader: R,
    byte_buf: Vec<u8>,
    nulls: usize,
    lead: usize,
    started: bool,
    unit_buf: VecDeque<H264NalUnit>,
    read: Ghost<Seq<u8>>,
    taken: Ghost<Seq<Seq<u8>>>,
}

impl<R> View for H264Stream<R> {
    type V = ScanState;

    closed spec fn view(&self) -> ScanState {
        ScanState {
            buf: self.byte_buf@,
            nulls: self.nulls as nat,
            lead: self.lead as nat,
            started: self.started,
            units: self.unit_buf@.map_values(|u: H264NalUnit| u.raw_bytes@),
        }
    }
}

impl<R> H264Stream<R> {
    /// The scanner's invariant holds, and every queued unit's type code is
    /// the one its header byte gives.
    pub closed spec fn wf(&self) -> bool {
        let whole = scan(initial_state(), self.read@);
        &&& scan_inv(self@)
        &&& forall|k: int| 0 <= k < self.unit_buf@.len() ==> (#[trigger] self.unit_buf@[k]).wf()
        &&& self@.buf == whole.buf
        &&& self@.nulls == whole.nulls
        &&& self@.lead == whole.lead
        &&& self@.started == whole.started
        &&& self.taken@ + self@.units == whole.units
    }

    /// All bytes handed to [`H264Stream::feed`] so far, in order.
    pub closed spec fn bytes_read(&self) -> Seq<u8> {
        self.read@
    }

    /// The raw bytes of every unit handed out so far, in order.
    pub closed spec fn handed_out(&self) -> Seq<Seq<u8>> {
        self.taken@
    }

    /// Units are handed out in stream order, none skipped, reordered or
    /// repeated, whatever the interleaving of reads and takes: those handed
    /// out and those still queued are, in order, the units of all bytes
    /// read, and those handed out stay the first units of the stream
    /// whatever bytes come after.
    pub proof fn lemma_handed_out_in_stream_order(&self, more: Seq<u8>)
        requires
            self.wf(),
        ensures
            self.handed_out() + self@.units == units_of(self.bytes_read()),
            self.handed_out().len() <= units_of(self.bytes_read() + more).len(),
            units_of(self.bytes_read() + more).subrange(0, self.handed_out().len() as int)
                == self.handed_out(),
    {
        let now = units_of(self.bytes_read());
        let later = units_of(self.bytes_read() + more);
        lemma_units_in_stream_order(initial_state(), self.bytes_read(), more);
        assert(now.subrange(0, self.handed_out().len() as int) =~= self.handed_out());
        assert(later.subrange(0, self.handed_out().len() as int) =~= now.subrange(
            0,
            self.handed_out().len() as int,
        ));
    }

    /// The byte source held.
    pub closed spec fn source(&self) -> R {
        self.reader
    }

    /// Takes hold of `reader`; nothing has been read yet.
    pub fn new(reader: R) -> (r: Self)
        ensures
            r.wf(),
            r@ == initial_state(),
            r.source() == reader,
            r.bytes_read() == Seq::<u8>::empty(),
            r.handed_out() == Seq::<Seq<u8>>::empty(),
    {
        let r = H264Stream {
            reader,
            byte_buf: Vec::with_capacity(INITIAL_CAPACITY),
            nulls: 0,
            lead: 0,
            started: false,
            unit_buf: VecDeque::new(),
            read: Ghost(Seq::empty()),
            taken: Ghost(Seq::empty()),
        };
        assert(r@.buf =~= Seq::<u8>::empty());
        assert(r@.units =~= Seq::<Seq<u8>>::empty());
        assert(r.taken@ + r@.units =~= Seq::<Seq<u8>>::empty());
        r
    }

    /// Reads one byte of the stream.
    fn scan_one(&mut self, b: u8)
        requires
            old(self).wf(),
        ensures
            final(self).wf(),
            final(self)@ == scan_byte(old(self)@, b),
            final(self).source() == old(self).source(),
            final(self).bytes_read() == old(self).bytes_read().push(b),
            final(self).handed_out() == old(self).handed_out(),
    {
        proof {
            lemma_scan_byte_inv(self@, b);
            lemma_trailing_zeros_bound(self.byte_buf@);
        }
        if b == 0 {
            self.byte_buf.push(b);
            let len = self.byte_buf.len();
            assert(self.nulls < len);
            self.nulls = self.nulls + 1;
        } else if b == 1 && self.nulls >= 2 {
            let end = self.byte_buf.len() - self.nulls;
            // The buffer keeps this start code's whole zero run and its `01`;
            // what lies before them is the unit that it closes.
            let mut closed = self.byte_buf.split_off(end);
            closed.push(b);
            std::mem::swap(&mut closed, &mut self.byte_buf);
            assert(self.byte_buf@ =~= old(self).byte_buf@.subrange(
                end as int,
                old(self).byte_buf@.len() as int,
            ).push(b));
            if self.started && end >= 2 && end - 2 >= self.lead {
                // The unit keeps two zero bytes of its opening zero run.
                let unit_bytes = closed.split_off(self.lead - 2);
                assert(unit_bytes@ =~= old(self).byte_buf@.subrange(self.lead - 2, end as int));
                let unit = H264NalUnit::new(unit_bytes);
                self.unit_buf.push_back(unit);
                assert(self@.units =~= old(self)@.units.push(unit.raw_bytes@));
            }
            self.lead = self.nulls;
            self.nulls = 0;
            self.started = true;
        } else {
            self.byte_buf.push(b);
            self.nulls = 0;
        }
        proof {
            self.read@ = self.read@.push(b);
            assert(self.read@.drop_last() =~= old(self).read@);
        }
        assert(self@ == scan_byte(old(self)@, b));
        assert(self.taken@ + self@.units =~= scan(initial_state(), self.read@).units);
    }

    /// Scans a chunk just read from the byte source, byte by byte, queueing
    /// each unit that a start code in it closes.
    pub fn feed(&mut self, chunk: &[u8])
        requires
            old(self).wf(),
        ensures
            final(self).wf(),
            final(self)@ == scan(old(self)@, chunk@),
            final(self).source() == old(self).source(),
            final(self).bytes_read() == old(self).bytes_read() + chunk@,
            final(self).handed_out() == old(self).handed_out(),
    {
        let mut k: usize = 0;
        while k < chunk.len()
            invariant
                self.wf(),
                k <= chunk@.len(),
                self@ == scan(old(self)@, chunk@.take(k as int)),
                self.reader == old(self).reader,
                self.read@ == old(self).read@ + chunk@.take(k as int),
                self.taken@ == old(self).taken@,
            decreases chunk@.len() - k,
        {
            assert(chunk@.take(k + 1).drop_last() =~= chunk@.take(k as int));
            assert(old(self).read@ + chunk@.take(k + 1) =~= (old(self).read@ + chunk@.take(
                k as int,
            )).push(chunk@[k as int]));
            self.scan_one(chunk[k]);
            k += 1;
        }
        assert(chunk@.take(k as int) =~= chunk@);
    }

    /// Hands out the oldest completed unit, if there is one.
    pub fn pop_unit(&mut self) -> (r: Option<H264NalUnit>)
        requires
            old(self).wf(),
        ensures
            final(self).wf(),
            final(self).source() == old(self).source(),
            final(self).bytes_read() == old(self).bytes_read(),
            match r {
                None => {
                    &&& old(self)@.units.len() == 0
                    &&& final(self)@ == old(self)@
                    &&& final(self).handed_out() == old(self).handed_out()
                },
                Some(u) => {
                    &&& old(self)@.units.len() > 0
                    &&& u.wf()
                    &&& u.unit_code <= 31
                    &&& is_canonical_unit(u.raw_bytes@)
                    &&& u.raw_bytes@ == old(self)@.units[0]
                    &&& final(self)@ == (ScanState { units: old(self)@.units.drop_first(), ..old(self)@ })
                    &&& final(self).handed_out() == old(self).handed_out().push(u.raw_bytes@)
                },
            },
    {
        let r = self.unit_buf.pop_front();
        if r.is_some() {
            assert(old(self).unit_buf@[0].wf());
            assert(is_canonical_unit(old(self)@.units[0]));
            proof {
                lemma_unit_code_bound(old(self).unit_buf@[0].raw_bytes@[3]);
            }
            assert(self@.units =~= old(self)@.units.drop_first());
            proof {
                self.taken@ = self.taken@.push(old(self)@.units[0]);
            }
            assert(self.taken@ + self@.units =~= old(self).taken@ + old(self)@.units);
        } else {
            assert(self@.units =~= old(self)@.units);
        }
        r
    }

    /// Number of completed units waiting to be handed out.
    pub fn queued_units(&self) -> (r: usize)
        ensures
            r == self@.units.len(),
    {
        self.unit_buf.len()
    }

    /// Number of bytes read and not yet resolved into a unit.
    pub fn buffered_len(&self) -> (r: usize)
        ensures
            r == self@.buf.len(),
    {
        self.byte_buf.len()
    }
}

} // verus!
