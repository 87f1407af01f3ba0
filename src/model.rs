use vstd::prelude::*;

verus! {

/// The scanner's state as plain values.
pub struct ScanState {
    /// Bytes read but not yet resolved into units. Once a start code has
    /// been seen, they begin with that start code's whole zero run and its
    /// `01`.
    pub buf: Seq<u8>,
    /// Length of the run of zero bytes at the end of what was read.
    pub nulls: nat,
    /// Length of the zero run of the start code that opens `buf`: the
    /// position of its `01` in `buf`.
    pub lead: nat,
    /// Whether a start code has been seen yet.
    pub started: bool,
    /// Completed units, in stream order, not yet handed out.
    pub units: Seq<Seq<u8>>,
}

/// The state before any byte is read.
pub open spec fn initial_state() -> ScanState {
    ScanState { buf: Seq::empty(), nulls: 0, lead: 0, started: false, units: Seq::empty() }
}

/// Starts with exactly two zero bytes and `01`, then holds a header byte.
pub open spec fn is_canonical_unit(u: Seq<u8>) -> bool {
    &&& u.len() >= 4
    &&& u[0] == 0
    &&& u[1] == 0
    &&& u[2] == 1
}

/// Number of zero bytes at the end of `s`.
pub open spec fn trailing_zeros(s: Seq<u8>) -> nat
    decreases s.len(),
{
    if s.len() == 0 {
        0
    } else if s.last() == 0 {
        trailing_zeros(s.drop_last()) + 1
    } else {
        0
    }
}

/// Reads one byte. A `01` after two or more zero bytes is a start code: it
/// closes the unit that the previous start code opened, which ends just
/// before this start code's zero run. The unit is emitted from two bytes
/// before its own `01`, so that it begins with exactly `00 00 01` whatever
/// the length of its zero run, and the buffer drops everything before the
/// new zero run. Bytes before the first start code belong to no unit, nor
/// does a start code whose `01` the next start code's zero run follows
/// directly.
pub open spec fn scan_byte(s: ScanState, b: u8) -> ScanState {
    if b == 0 {
        ScanState { buf: s.buf.push(b), nulls: s.nulls + 1, ..s }
    } else if b == 1 && s.nulls >= 2 {
        let end = s.buf.len() - s.nulls;
        ScanState {
            buf: s.buf.subrange(end, s.buf.len() as int).push(b),
            nulls: 0,
            lead: s.nulls,
            started: true,
            units: if s.started && end >= s.lead + 2 {
                s.units.push(s.buf.subrange(s.lead - 2, end))
            } else {
                s.units
            },
        }
    } else {
        ScanState { buf: s.buf.push(b), nulls: 0, ..s }
    }
}

/// Reads `bytes` in order.
pub open spec fn scan(s: ScanState, bytes: Seq<u8>) -> ScanState
    decreases bytes.len(),
{
    if bytes.len() == 0 {
        s
    } else {
        scan_byte(scan(s, bytes.drop_last()), bytes.last())
    }
}

/// The units that a stream yields, read from its start, in the order in
/// which their closing start codes occur.
pub open spec fn units_of(bytes: Seq<u8>) -> Seq<Seq<u8>> {
    scan(initial_state(), bytes).units
}

/// What holds of every state the scanner reaches.
pub open spec fn scan_inv(s: ScanState) -> bool {
    &&& s.nulls == trailing_zeros(s.buf)
    &&& s.started ==> 2 <= s.lead < s.buf.len() && s.buf[s.lead as int] == 1
    &&& s.started ==> forall|k: int| 0 <= k < s.lead ==> #[trigger] s.buf[k] == 0
    &&& forall|k: int| 0 <= k < s.units.len() ==> is_canonical_unit(#[trigger] s.units[k])
}

pub proof fn lemma_trailing_zeros_bound(s: Seq<u8>)
    ensures
        trailing_zeros(s) <= s.len(),
    decreases s.len(),
{
    if s.len() > 0 {
        lemma_trailing_zeros_bound(s.drop_last());
    }
}

proof fn lemma_trailing_zeros_are_zero(s: Seq<u8>, k: int)
    requires
        0 <= k < s.len(),
        s.len() - trailing_zeros(s) <= k,
    ensures
        s[k] == 0,
    decreases s.len(),
{
    assert(s.last() == 0);
    if k < s.len() - 1 {
        lemma_trailing_zeros_are_zero(s.drop_last(), k);
        assert(s.drop_last()[k] == s[k]);
    }
}

/// Reading a byte keeps the invariant.
pub proof fn lemma_scan_byte_inv(s: ScanState, b: u8)
    requires
        scan_inv(s),
    ensures
        scan_inv(scan_byte(s, b)),
{
    let t = scan_byte(s, b);
    lemma_trailing_zeros_bound(s.buf);
    if b == 0 {
        assert(t.buf.drop_last() == s.buf);
        if s.started {
            assert(t.buf[s.lead as int] == s.buf[s.lead as int]);
            assert forall|k: int| 0 <= k < t.lead implies #[trigger] t.buf[k] == 0 by {
                assert(t.buf[k] == s.buf[k]);
            }
        }
    } else if b == 1 && s.nulls >= 2 {
        let end = s.buf.len() - s.nulls;
        assert(t.buf.last() == 1);
        assert forall|k: int| 0 <= k < t.lead implies #[trigger] t.buf[k] == 0 by {
            lemma_trailing_zeros_are_zero(s.buf, end + k);
        }
        if s.started && end >= s.lead + 2 {
            let u = s.buf.subrange(s.lead - 2, end);
            assert(u[0] == s.buf[s.lead - 2]);
            assert(u[1] == s.buf[s.lead - 1]);
            assert(u[2] == s.buf[s.lead as int]);
            assert forall|k: int| 0 <= k < t.units.len() implies is_canonical_unit(
                #[trigger] t.units[k],
            ) by {
                if k < s.units.len() {
                    assert(t.units[k] == s.units[k]);
                }
            }
        }
    } else {
        assert(t.buf.last() != 0);
        if s.started {
            assert(t.buf[s.lead as int] == s.buf[s.lead as int]);
            assert forall|k: int| 0 <= k < t.lead implies #[trigger] t.buf[k] == 0 by {
                assert(t.buf[k] == s.buf[k]);
            }
        }
    }
}

/// Reading any bytes keeps the invariant.
pub proof fn lemma_scan_inv(s: ScanState, bytes: Seq<u8>)
    requires
        scan_inv(s),
    ensures
        scan_inv(scan(s, bytes)),
    decreases bytes.len(),
{
    if bytes.len() > 0 {
        lemma_scan_inv(s, bytes.drop_last());
        lemma_scan_byte_inv(scan(s, bytes.drop_last()), bytes.last());
    }
}

/// Reading `a` and then `b` leaves the same state, and so the same units,
/// as reading `a + b` at once: where the stream is split into reads does
/// not matter, even inside a start code.
pub proof fn lemma_chunking_invariance(s: ScanState, a: Seq<u8>, b: Seq<u8>)
    ensures
        scan(scan(s, a), b) == scan(s, a + b),
    decreases b.len(),
{
    if b.len() == 0 {
        assert(a + b == a);
    } else {
        lemma_chunking_invariance(s, a, b.drop_last());
        assert((a + b).drop_last() == a + b.drop_last());
        assert((a + b).last() == b.last());
    }
}

/// Every unit that the scanner emits begins with exactly two zero bytes,
/// then `01` and a header byte, however many zero bytes the stream wrote
/// before the `01`.
pub proof fn lemma_units_canonical(bytes: Seq<u8>, k: int)
    requires
        0 <= k < scan(initial_state(), bytes).units.len(),
    ensures
        is_canonical_unit(scan(initial_state(), bytes).units[k]),
{
    lemma_scan_inv(initial_state(), bytes);
}

/// Reading more bytes only appends units: those already completed keep
/// their place at the front, so units come out in the order in which their
/// closing start codes occur in the stream.
pub proof fn lemma_units_in_stream_order(s: ScanState, a: Seq<u8>, b: Seq<u8>)
    ensures
        scan(s, a).units.len() <= scan(s, a + b).units.len(),
        scan(s, a + b).units.subrange(0, scan(s, a).units.len() as int) == scan(s, a).units,
{
    lemma_chunking_invariance(s, a, b);
    lemma_units_prefix(scan(s, a), b);
}

proof fn lemma_units_prefix(s: ScanState, b: Seq<u8>)
    ensures
        s.units.len() <= scan(s, b).units.len(),
        scan(s, b).units.subrange(0, s.units.len() as int) == s.units,
    decreases b.len(),
{
    if b.len() > 0 {
        lemma_units_prefix(s, b.drop_last());
        let m = scan(s, b.drop_last());
        assert(scan(s, b).units.subrange(0, s.units.len() as int) =~= m.units.subrange(
            0,
            s.units.len() as int,
        ));
    }
}

/// Bytes `t` read after state `s` hold no `01` that ends a start code.
pub open spec fn closes_no_start_code(s: ScanState, t: Seq<u8>) -> bool {
    forall|k: int|
        0 <= k < t.len() && #[trigger] t[k] == 1 ==> trailing_zeros(s.buf + t.take(k)) < 2
}

/// Bytes that no start code follows are never emitted as a unit: they stay
/// in the buffer, after all that it held, until a later start code closes
/// them.
pub proof fn lemma_undelimited_tail_stays_buffered(s: ScanState, t: Seq<u8>)
    requires
        scan_inv(s),
        closes_no_start_code(s, t),
    ensures
        scan(s, t).units == s.units,
        scan(s, t).buf == s.buf + t,
    decreases t.len(),
{
    if t.len() == 0 {
        assert(s.buf + t =~= s.buf);
    } else {
        let q = t.drop_last();
        assert forall|k: int| 0 <= k < q.len() && #[trigger] q[k] == 1 implies trailing_zeros(
            s.buf + q.take(k),
        ) < 2 by {
            assert(q.take(k) =~= t.take(k));
            assert(t[k] == 1);
        }
        lemma_undelimited_tail_stays_buffered(s, q);
        lemma_scan_inv(s, q);
        assert(t.take(t.len() - 1) =~= q);
        assert(t[t.len() - 1] == t.last());
        assert((s.buf + q).push(t.last()) =~= s.buf + t);
    }
}

/// A start code ends at position `i` of `bytes`: a `01` after two zero bytes.
pub open spec fn is_start_code_at(bytes: Seq<u8>, i: int) -> bool {
    &&& 2 <= i < bytes.len()
    &&& bytes[i] == 1
    &&& bytes[i - 1] == 0
    &&& bytes[i - 2] == 0
}

/// Number of start codes in `bytes`.
pub open spec fn count_start_codes(bytes: Seq<u8>) -> nat
    decreases bytes.len(),
{
    if bytes.len() == 0 {
        0
    } else {
        count_start_codes(bytes.drop_last()) + if is_start_code_at(bytes, bytes.len() - 1) {
            1nat
        } else {
            0nat
        }
    }
}

/// Every start code's `01` is followed by at least one byte before the
/// zero run of the next start code: no start code ends where the zero run
/// of the next one begins.
pub open spec fn no_empty_units(bytes: Seq<u8>) -> bool {
    forall|j: int|
        #![trigger is_start_code_at(bytes, j)]
        is_start_code_at(bytes, j) ==> !is_start_code_at(
            bytes,
            j - 1 - trailing_zeros(bytes.take(j)),
        )
}

proof fn lemma_trailing_zeros_two(q: Seq<u8>)
    ensures
        trailing_zeros(q) >= 2 <==> (q.len() >= 2 && q[q.len() - 1] == 0 && q[q.len() - 2] == 0),
{
    if q.len() >= 1 && q.last() == 0 {
        let d = q.drop_last();
        assert(trailing_zeros(q) == trailing_zeros(d) + 1);
        if d.len() >= 1 {
            assert(d.last() == q[q.len() - 2]);
            if d.last() == 0 {
                assert(trailing_zeros(d) == trailing_zeros(d.drop_last()) + 1);
            } else {
                assert(trailing_zeros(d) == 0);
            }
        } else {
            assert(trailing_zeros(d) == 0);
        }
    } else {
        assert(trailing_zeros(q) == 0);
    }
}

proof fn lemma_trailing_zeros_before(q: Seq<u8>, j: int)
    requires
        0 <= j < q.len(),
        q[j] != 0,
    ensures
        trailing_zeros(q) <= q.len() - 1 - j,
    decreases q.len(),
{
    if q.last() == 0 {
        lemma_trailing_zeros_before(q.drop_last(), j);
    }
}

/// The buffer after reading `p` from the start: all of `p` while no start
/// code has come; after one, `p` from the first zero byte of the last start
/// code's zero run on.
pub open spec fn holds_undelimited_tail(p: Seq<u8>, st: ScanState) -> bool {
    let off = p.len() - st.buf.len();
    &&& st.buf.len() <= p.len()
    &&& st.buf == p.subrange(off, p.len() as int)
    &&& !st.started ==> st.buf == p
    &&& st.started ==> {
        &&& is_start_code_at(p, off + st.lead)
        &&& forall|k: int| off <= k < off + st.lead ==> #[trigger] p[k] == 0
        &&& off == 0 || p[off - 1] != 0
        &&& forall|k: int| off + st.lead < k < p.len() ==> !#[trigger] is_start_code_at(p, k)
    }
}

/// What the scanner's state counts of the stream read from the start.
spec fn counts_units(p: Seq<u8>, st: ScanState) -> bool {
    &&& st.started ==> st.units.len() + 1 == count_start_codes(p)
    &&& !st.started ==> st.units.len() == 0
}

/// What the scanner's state says of the stream read from the start.
spec fn tracks_stream(p: Seq<u8>, st: ScanState) -> bool {
    &&& scan_inv(st)
    &&& st.nulls == trailing_zeros(p)
    &&& st.started == (count_start_codes(p) > 0)
    &&& holds_undelimited_tail(p, st)
}

proof fn lemma_index_facts(q: Seq<u8>, b: u8, s: ScanState)
    requires
        holds_undelimited_tail(q, s),
    ensures
        forall|k: int| 0 <= k < q.len() ==> #[trigger] q.push(b)[k] == q[k],
        forall|k: int|
            0 <= k < q.len() ==> #[trigger] is_start_code_at(q.push(b), k) == is_start_code_at(
                q,
                k,
            ),
        forall|k: int|
            0 <= k < s.buf.len() ==> #[trigger] s.buf[k] == q[q.len() - s.buf.len() + k],
        q.push(b).drop_last() == q,
        q.push(b).last() == b,
{
    let p = q.push(b);
    assert forall|k: int| 0 <= k < q.len() implies #[trigger] is_start_code_at(p, k)
        == is_start_code_at(q, k) by {
        if k >= 2 {
            assert(p[k] == q[k] && p[k - 1] == q[k - 1] && p[k - 2] == q[k - 2]);
        }
    }
    assert(p.drop_last() =~= q);
}

proof fn lemma_tail_step(q: Seq<u8>, b: u8)
    requires
        tracks_stream(q, scan(initial_state(), q)),
    ensures
        tracks_stream(q.push(b), scan(initial_state(), q.push(b))),
{
    let p = q.push(b);
    let s = scan(initial_state(), q);
    lemma_index_facts(q, b, s);
    let st = scan(initial_state(), p);
    assert(st == scan_byte(s, b));
    lemma_scan_byte_inv(s, b);
    lemma_trailing_zeros_two(q);
    lemma_trailing_zeros_bound(s.buf);
    let off = q.len() - s.buf.len();
    if b == 0 {
        assert(p.subrange(off, p.len() as int) =~= st.buf);
        assert(!is_start_code_at(p, p.len() - 1));
    } else if b == 1 && s.nulls >= 2 {
        let end = s.buf.len() - s.nulls;
        assert(is_start_code_at(p, p.len() - 1));
        assert forall|k: int| 0 <= k < st.buf.len() - 1 implies #[trigger] st.buf[k] == p[off
            + end + k] by {
            assert(st.buf[k] == s.buf[end + k]);
        }
        assert(p.subrange(off + end, p.len() as int) =~= st.buf);
        assert forall|k: int| off + end <= k < off + end + st.lead implies #[trigger] p[k]
            == 0 by {
            lemma_trailing_zeros_are_zero(s.buf, k - off);
        }
        if end > 0 {
            lemma_before_trailing_zeros(s.buf, end - 1);
        }
    } else {
        assert(!is_start_code_at(p, p.len() - 1));
        assert(p.subrange(off, p.len() as int) =~= st.buf);
    }
}

proof fn lemma_count_step(q: Seq<u8>, b: u8)
    requires
        tracks_stream(q, scan(initial_state(), q)),
        counts_units(q, scan(initial_state(), q)),
        no_empty_units(q.push(b)),
    ensures
        counts_units(q.push(b), scan(initial_state(), q.push(b))),
{
    let p = q.push(b);
    let s = scan(initial_state(), q);
    lemma_index_facts(q, b, s);
    let st = scan(initial_state(), p);
    assert(st == scan_byte(s, b));
    lemma_trailing_zeros_two(q);
    lemma_trailing_zeros_bound(s.buf);
    let off = q.len() - s.buf.len();
    if b == 1 && s.nulls >= 2 {
        assert(is_start_code_at(p, p.len() - 1));
        if s.started {
            assert(is_start_code_at(p, off + s.lead));
            lemma_trailing_zeros_before(s.buf, s.lead as int);
            assert(p.take(q.len() as int) =~= q);
            assert(!is_start_code_at(p, q.len() - 1 - trailing_zeros(p.take(q.len() as int))));
        }
    } else {
        assert(!is_start_code_at(p, p.len() - 1));
    }
}

proof fn lemma_tracks_stream(p: Seq<u8>)
    ensures
        tracks_stream(p, scan(initial_state(), p)),
        no_empty_units(p) ==> counts_units(p, scan(initial_state(), p)),
    decreases p.len(),
{
    if p.len() == 0 {
        assert(p.subrange(0, 0) =~= Seq::<u8>::empty());
        assert(p =~= Seq::<u8>::empty());
        assert(scan_inv(initial_state()));
        assert(holds_undelimited_tail(p, initial_state()));
    } else {
        let q = p.drop_last();
        let b = p.last();
        assert(q.push(b) =~= p);
        lemma_tracks_stream(q);
        if no_empty_units(p) {
            lemma_index_facts(q, b, scan(initial_state(), q));
            assert forall|j: int| #[trigger] is_start_code_at(q, j) implies !is_start_code_at(
                q,
                j - 1 - trailing_zeros(q.take(j)),
            ) by {
                assert(is_start_code_at(p, j));
                assert(q.take(j) =~= p.take(j));
            }
        }
        lemma_tail_step(q, b);
        if no_empty_units(p) {
            lemma_count_step(q, b);
        }
    }
}

proof fn lemma_before_trailing_zeros(s: Seq<u8>, k: int)
    requires
        0 <= k,
        k + 1 == s.len() - trailing_zeros(s),
    ensures
        s[k] != 0,
    decreases s.len(),
{
    if s.last() == 0 {
        lemma_trailing_zeros_bound(s.drop_last());
        lemma_before_trailing_zeros(s.drop_last(), k);
    }
}

/// What the buffer holds after reading `bytes` from the start: the bytes
/// that no start code has yet closed, from the first zero byte of the
/// zero run of the last start code on, and all of `bytes` while no start
/// code has come.
pub proof fn lemma_buffer_holds_undelimited_tail(bytes: Seq<u8>)
    ensures
        holds_undelimited_tail(bytes, scan(initial_state(), bytes)),
        scan(initial_state(), bytes).started == (count_start_codes(bytes) > 0),
{
    lemma_tracks_stream(bytes);
}

/// A stream that holds `K` start codes, none of whose `01` is followed
/// directly by the next start code's zero run, yields `K - 1` units: the
/// first start code closes no unit, and the unit that the last one opens
/// waits for the next.
pub proof fn lemma_one_unit_per_start_code(bytes: Seq<u8>)
    requires
        no_empty_units(bytes),
    ensures
        count_start_codes(bytes) > 0 ==> units_of(bytes).len() == count_start_codes(bytes) - 1,
        count_start_codes(bytes) == 0 ==> units_of(bytes).len() == 0,
{
    lemma_tracks_stream(bytes);
}

} // verus!
