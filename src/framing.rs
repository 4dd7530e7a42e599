//! The framing state machine as a mathematical model.
use vstd::prelude::*;

verus! {

/// First synchronization byte of every frame.
pub const SYNC_1: u8 = 0x94;

/// Second synchronization byte of every frame.
pub const SYNC_2: u8 = 0xc3;

/// Largest payload length a frame header may declare.
pub const MAX_PAYLOAD_LEN: u16 = 512;

/// Number of bytes in a frame header (sync bytes and length).
pub const HEADER_LEN: usize = 4;

/// The payload length declared by the header held in `buf` (bytes 2 and 3, big-endian).
pub open spec fn declared_len(buf: Seq<u8>) -> nat
    recommends
        buf.len() >= 4,
{
    (buf[2] as nat) * 256 + (buf[3] as nat)
}

/// What the accumulation buffer may hold between two bytes: nothing, or a
/// proper prefix of a frame whose header (as far as it is known) is valid.
pub open spec fn buffer_wf(buf: Seq<u8>) -> bool {
    &&& buf.len() >= 1 ==> buf[0] == SYNC_1
    &&& buf.len() >= 2 ==> buf[1] == SYNC_2
    &&& buf.len() >= 4 ==> declared_len(buf) <= MAX_PAYLOAD_LEN as nat
        && buf.len() < declared_len(buf) + 4
}

/// One byte of input: the buffer afterwards, and the payload of the frame that
/// this byte completes, if any.
pub open spec fn step(buf: Seq<u8>, b: u8) -> (Seq<u8>, Option<Seq<u8>>) {
    let pos = buf.len();
    let next = buf.push(b);
    if pos == 0 {
        if b == SYNC_1 { (next, None) } else { (Seq::empty(), None) }
    } else if pos == 1 {
        if b == SYNC_2 { (next, None) } else { (Seq::empty(), None) }
    } else if pos == 2 {
        (next, None)
    } else {
        let len = declared_len(next);
        if pos == 3 && len > MAX_PAYLOAD_LEN as nat {
            (Seq::empty(), None)
        } else if pos + 1 >= len + 4 {
            (Seq::empty(), Some(next.subrange(4, 4 + len as int)))
        } else {
            (next, None)
        }
    }
}

/// A whole chunk of input: the buffer afterwards, and the payloads of the
/// frames completed, in the order in which they completed.
pub open spec fn run(buf: Seq<u8>, input: Seq<u8>) -> (Seq<u8>, Seq<Seq<u8>>)
    decreases input.len(),
{
    if input.len() == 0 {
        (buf, Seq::empty())
    } else {
        let (mid, done) = run(buf, input.drop_last());
        let (after, out) = step(mid, input.last());
        match out {
            Some(p) => (after, done.push(p)),
            None => (after, done),
        }
    }
}

/// A sequence of chunks fed one after another: the buffer afterwards, and all
/// payloads completed, in order.
pub open spec fn run_chunks(buf: Seq<u8>, chunks: Seq<Seq<u8>>) -> (Seq<u8>, Seq<Seq<u8>>)
    decreases chunks.len(),
{
    if chunks.len() == 0 {
        (buf, Seq::empty())
    } else {
        let (mid, done) = run_chunks(buf, chunks.drop_last());
        let (after, more) = run(mid, chunks.last());
        (after, done + more)
    }
}

/// The frame that carries `payload`: sync bytes, big-endian length, payload.
pub open spec fn frame_of(payload: Seq<u8>) -> Seq<u8> {
    seq![SYNC_1, SYNC_2, (payload.len() / 256) as u8, (payload.len() % 256) as u8] + payload
}

/// The frames of several payloads, one after another.
pub open spec fn frames_of(payloads: Seq<Seq<u8>>) -> Seq<u8>
    decreases payloads.len(),
{
    if payloads.len() == 0 {
        Seq::empty()
    } else {
        frames_of(payloads.drop_last()) + frame_of(payloads.last())
    }
}

/// The buffer stays well formed from byte to byte.
pub proof fn lemma_step_wf(buf: Seq<u8>, b: u8)
    requires
        buffer_wf(buf),
    ensures
        buffer_wf(step(buf, b).0),
{
}

/// Feeding `a` and then `b` ends in the same buffer as feeding `a + b`, and
/// the payloads completed are those of `a` followed by those of `b`.
pub proof fn lemma_run_concat(buf: Seq<u8>, a: Seq<u8>, b: Seq<u8>)
    ensures
        run(buf, a + b) == ({
            let (mid, first) = run(buf, a);
            let (after, second) = run(mid, b);
            (after, first + second)
        }),
    decreases b.len(),
{
    let (mid, first) = run(buf, a);
    if b.len() == 0 {
        assert(a + b =~= a);
        assert(first + Seq::<Seq<u8>>::empty() =~= first);
    } else {
        assert((a + b).drop_last() =~= a + b.drop_last());
        assert((a + b).last() == b.last());
        lemma_run_concat(buf, a, b.drop_last());
        let (m2, second) = run(mid, b.drop_last());
        match step(m2, b.last()).1 {
            Some(p) => {
                assert((first + second).push(p) =~= first + second.push(p));
            },
            None => {},
        }
    }
}

/// How a stream is cut into chunks does not matter: feeding the chunks one
/// after another gives the same buffer and the same payloads, in the same
/// order, as feeding the whole stream at once.
pub proof fn lemma_chunking_invariant(buf: Seq<u8>, chunks: Seq<Seq<u8>>)
    ensures
        run_chunks(buf, chunks) == run(buf, chunks.flatten()),
    decreases chunks.len(),
{
    chunks.lemma_flatten_and_flatten_alt_are_equivalent();
    if chunks.len() == 0 {
    } else {
        lemma_chunking_invariant(buf, chunks.drop_last());
        chunks.drop_last().lemma_flatten_and_flatten_alt_are_equivalent();
        lemma_run_concat(buf, chunks.drop_last().flatten(), chunks.last());
    }
}

/// The header of `frame_of(payload)` declares the payload's length.
proof fn lemma_frame_header(payload: Seq<u8>, k: int)
    requires
        payload.len() <= MAX_PAYLOAD_LEN as nat,
        4 <= k <= payload.len() + 4,
    ensures
        declared_len(frame_of(payload).take(k)) == payload.len(),
{
    let f = frame_of(payload);
    let n = payload.len() as int;
    assert(f.take(k)[2] == (n / 256) as u8);
    assert(f.take(k)[3] == (n % 256) as u8);
    assert((n / 256) * 256 + n % 256 == n) by (nonlinear_arith);
}

/// Every proper prefix of a frame is buffered as it is, with nothing completed.
proof fn lemma_frame_prefix(payload: Seq<u8>, k: int)
    requires
        payload.len() <= MAX_PAYLOAD_LEN as nat,
        0 <= k < payload.len() + 4,
    ensures
        run(Seq::empty(), frame_of(payload).take(k)) == (frame_of(payload).take(k), Seq::<
            Seq<u8>,
        >::empty()),
    decreases k,
{
    let f = frame_of(payload);
    if k == 0 {
        assert(f.take(0) =~= Seq::<u8>::empty());
    } else {
        lemma_frame_prefix(payload, k - 1);
        assert(f.take(k).drop_last() =~= f.take(k - 1));
        assert(f.take(k - 1).push(f[k - 1]) =~= f.take(k));
        if k >= 4 {
            lemma_frame_header(payload, k);
        }
    }
}

/// A frame fed from the idle state completes exactly once, with its own
/// payload, and leaves the buffer empty.
pub proof fn lemma_frame_round_trip(payload: Seq<u8>)
    requires
        payload.len() <= MAX_PAYLOAD_LEN as nat,
    ensures
        run(Seq::empty(), frame_of(payload)) == (Seq::<u8>::empty(), seq![payload]),
{
    let f = frame_of(payload);
    let n = payload.len() as int;
    lemma_frame_prefix(payload, n + 3);
    assert(f.drop_last() =~= f.take(n + 3));
    assert(f.take(n + 3).push(f.last()) =~= f);
    lemma_frame_header(payload, n + 4);
    assert(f.take(n + 4) =~= f);
    assert(f.subrange(4, 4 + n) =~= payload);
    assert(Seq::<Seq<u8>>::empty().push(payload) =~= seq![payload]);
}

/// A frame split into chunks of any sizes, fed one chunk after another from
/// the idle state, still yields its payload exactly once.
pub proof fn lemma_frame_round_trip_chunked(payload: Seq<u8>, chunks: Seq<Seq<u8>>)
    requires
        payload.len() <= MAX_PAYLOAD_LEN as nat,
        chunks.flatten() == frame_of(payload),
    ensures
        run_chunks(Seq::empty(), chunks) == (Seq::<u8>::empty(), seq![payload]),
{
    lemma_chunking_invariant(Seq::empty(), chunks);
    lemma_frame_round_trip(payload);
}

/// Consecutive frames fed in one chunk from the idle state each complete
/// once, in the order in which they stand, whatever their payloads hold.
pub proof fn lemma_frames_batch(payloads: Seq<Seq<u8>>)
    requires
        forall|i: int| 0 <= i < payloads.len() ==> (#[trigger] payloads[i]).len()
            <= MAX_PAYLOAD_LEN as nat,
    ensures
        run(Seq::empty(), frames_of(payloads)) == (Seq::<u8>::empty(), payloads),
    decreases payloads.len(),
{
    if payloads.len() == 0 {
        assert(payloads =~= Seq::<Seq<u8>>::empty());
    } else {
        let init = payloads.drop_last();
        assert forall|i: int| 0 <= i < init.len() implies (#[trigger] init[i]).len()
            <= MAX_PAYLOAD_LEN as nat by {
            assert(init[i] == payloads[i]);
        }
        lemma_frames_batch(init);
        lemma_run_concat(Seq::empty(), frames_of(init), frame_of(payloads.last()));
        lemma_frame_round_trip(payloads.last());
        assert(init + seq![payloads.last()] =~= payloads);
    }
}

/// A frame whose payload is never decoded, or fails to decode, does not
/// disturb the frame right after it: both payloads complete, in order.
pub proof fn lemma_frame_after_frame(first: Seq<u8>, second: Seq<u8>)
    requires
        first.len() <= MAX_PAYLOAD_LEN as nat,
        second.len() <= MAX_PAYLOAD_LEN as nat,
    ensures
        run(Seq::empty(), frame_of(first) + frame_of(second)) == (Seq::<u8>::empty(), seq![
            first,
            second,
        ]),
{
    lemma_run_concat(Seq::empty(), frame_of(first), frame_of(second));
    lemma_frame_round_trip(first);
    lemma_frame_round_trip(second);
    assert(seq![first] + seq![second] =~= seq![first, second]);
}

/// Bytes none of which is the first synchronization byte are all discarded.
pub proof fn lemma_garbage_discarded(garbage: Seq<u8>)
    requires
        forall|i: int| 0 <= i < garbage.len() ==> #[trigger] garbage[i] != SYNC_1,
    ensures
        run(Seq::empty(), garbage) == (Seq::<u8>::empty(), Seq::<Seq<u8>>::empty()),
    decreases garbage.len(),
{
    if garbage.len() > 0 {
        let init = garbage.drop_last();
        assert forall|i: int| 0 <= i < init.len() implies #[trigger] init[i] != SYNC_1 by {
            assert(init[i] == garbage[i]);
        }
        lemma_garbage_discarded(init);
        assert(garbage[garbage.len() - 1] != SYNC_1);
    }
}

/// After any number of bytes none of which is the first synchronization byte,
/// a frame is decoded exactly as from the idle state.
pub proof fn lemma_resync_after_garbage(garbage: Seq<u8>, payload: Seq<u8>)
    requires
        forall|i: int| 0 <= i < garbage.len() ==> #[trigger] garbage[i] != SYNC_1,
        payload.len() <= MAX_PAYLOAD_LEN as nat,
    ensures
        run(Seq::empty(), garbage + frame_of(payload)) == (Seq::<u8>::empty(), seq![payload]),
{
    lemma_garbage_discarded(garbage);
    lemma_run_concat(Seq::empty(), garbage, frame_of(payload));
    lemma_frame_round_trip(payload);
    assert(Seq::<Seq<u8>>::empty() + seq![payload] =~= seq![payload]);
}

/// A header that declares more than the largest payload length is discarded
/// as soon as it is complete, and the frame right after it is decoded.
pub proof fn lemma_oversized_header_rejected(len_hi: u8, len_lo: u8, payload: Seq<u8>)
    requires
        (len_hi as nat) * 256 + (len_lo as nat) > MAX_PAYLOAD_LEN as nat,
        payload.len() <= MAX_PAYLOAD_LEN as nat,
    ensures
        run(Seq::empty(), seq![SYNC_1, SYNC_2, len_hi, len_lo]) == (Seq::<u8>::empty(), Seq::<
            Seq<u8>,
        >::empty()),
        run(Seq::empty(), seq![SYNC_1, SYNC_2, len_hi, len_lo] + frame_of(payload)) == (Seq::<
            u8,
        >::empty(), seq![payload]),
{
    let h = seq![SYNC_1, SYNC_2, len_hi, len_lo];
    assert(h.drop_last() =~= seq![SYNC_1, SYNC_2, len_hi]);
    assert(h.drop_last().drop_last() =~= seq![SYNC_1, SYNC_2]);
    assert(h.drop_last().drop_last().drop_last() =~= seq![SYNC_1]);
    assert(seq![SYNC_1].drop_last() =~= Seq::<u8>::empty());
    assert(Seq::<u8>::empty().push(SYNC_1) =~= seq![SYNC_1]);
    assert(seq![SYNC_1].push(SYNC_2) =~= seq![SYNC_1, SYNC_2]);
    assert(seq![SYNC_1, SYNC_2].push(len_hi) =~= seq![SYNC_1, SYNC_2, len_hi]);
    assert(seq![SYNC_1, SYNC_2, len_hi].push(len_lo) =~= h);
    let none = Seq::<Seq<u8>>::empty();
    assert(run(Seq::empty(), Seq::empty()) == (Seq::<u8>::empty(), none));
    assert(run(Seq::empty(), seq![SYNC_1]) == (seq![SYNC_1], none));
    assert(run(Seq::empty(), seq![SYNC_1, SYNC_2]) == (seq![SYNC_1, SYNC_2], none));
    assert(run(Seq::empty(), seq![SYNC_1, SYNC_2, len_hi]) == (seq![SYNC_1, SYNC_2, len_hi], none));
    assert(declared_len(h) > MAX_PAYLOAD_LEN as nat);
    assert(run(Seq::empty(), h) == (Seq::<u8>::empty(), none));
    lemma_run_concat(Seq::empty(), h, frame_of(payload));
    lemma_frame_round_trip(payload);
    assert(Seq::<Seq<u8>>::empty() + seq![payload] =~= seq![payload]);
}

} // verus!
