//! The decoder: an accumulation buffer driven by the framing rules, and the
//! channel that receives decoded messages.
use crate::framing::{buffer_wf, run, HEADER_LEN, MAX_PAYLOAD_LEN, SYNC_1, SYNC_2};
use tokio::sync::mpsc::UnboundedSender;
use vstd::prelude::*;

verus! {

#[verifier::external_type_specification]
#[verifier::external_body]
#[verifier::reject_recursive_types(T)]
pub struct ExUnboundedSender<T>(UnboundedSender<T>);

/// Relies on prost's `Message::decode`: parses the whole of `payload` as one
/// message, `None` where the bytes are not a valid encoding.
#[verifier::external_body]
fn decode_payload<M: prost::Message + Default>(payload: &[u8]) -> Option<M> {
    M::decode(payload).ok()
}

/// Relies on tokio's `UnboundedSender::send`: queues `packet` without
/// blocking; when no receiver is left the packet is handed back in an error,
/// which is dropped here. It aborts the process only when the count of queued
/// messages would overflow `usize`, which the channel's state alone decides.
#[verifier::external_body]
fn send_packet<M>(tx: &UnboundedSender<M>, packet: M) {
    let _ = tx.send(packet);
}

/// Relies on tokio's `Clone` for `UnboundedSender`: another handle to the
/// same channel. Nothing is assumed of the result.
pub assume_specification<T>[ <UnboundedSender<T> as Clone>::clone ](
    s: &UnboundedSender<T>,
) -> UnboundedSender<T>;

/// The messages among decode outcomes, in order.
pub open spec fn decoded_messages<M>(outcomes: Seq<Option<M>>) -> Seq<M>
    decreases outcomes.len(),
{
    if outcomes.len() == 0 {
        Seq::empty()
    } else {
        let init = decoded_messages(outcomes.drop_last());
        match outcomes.last() {
            Some(m) => init.push(m),
            None => init,
        }
    }
}

/// Reassembles frames from a byte stream that arrives in chunks of any size,
/// and sends every payload that decodes as an `M` to an output channel.
#[verifier::reject_recursive_types(M)]
#[derive(Clone)]
pub struct StreamBuffer<M> {
    buffer: Vec<u8>,
    decoded_packet_tx: UnboundedSender<M>,
    /// Every payload handed to the decoder so far, in order.
    handed: Ghost<Seq<Seq<u8>>>,
    /// What the decoder returned for each of them.
    outcomes: Ghost<Seq<Option<M>>>,
    /// Every message passed to the channel so far, in order.
    sent: Ghost<Seq<M>>,
}

impl<M> View for StreamBuffer<M> {
    type V = Seq<u8>;

    /// The bytes of the frame being assembled.
    closed spec fn view(&self) -> Seq<u8> {
        self.buffer@
    }
}

impl<M> StreamBuffer<M> {
    /// The channel that decoded messages are sent to.
    pub closed spec fn sender(&self) -> UnboundedSender<M> {
        self.decoded_packet_tx
    }

    /// Every payload handed to the decoder since construction, in order.
    pub closed spec fn handed(&self) -> Seq<Seq<u8>> {
        self.handed@
    }

    /// The decoder's result for each payload of `handed()`, in the same order.
    pub closed spec fn outcomes(&self) -> Seq<Option<M>> {
        self.outcomes@
    }

    /// Every message sent to `sender()` since construction, in order.
    pub closed spec fn sent(&self) -> Seq<M> {
        self.sent@
    }

    /// The buffer holds nothing, or a valid prefix of a frame not yet complete;
    /// each handed payload has one decode outcome, and what was sent is exactly
    /// the messages among those outcomes.
    pub open spec fn wf(&self) -> bool {
        &&& buffer_wf(self@)
        &&& self.outcomes().len() == self.handed().len()
        &&& self.sent() == decoded_messages(self.outcomes())
    }

    /// A decoder with an empty buffer that sends decoded messages to
    /// `decoded_packet_tx`.
    pub fn new(decoded_packet_tx: UnboundedSender<M>) -> (r: Self)
        ensures
            r@ == Seq::<u8>::empty(),
            r.sender() == decoded_packet_tx,
            r.handed() == Seq::<Seq<u8>>::empty(),
            r.outcomes() == Seq::<Option<M>>::empty(),
            r.sent() == Seq::<M>::empty(),
            r.wf(),
    {
        StreamBuffer {
            buffer: Vec::new(),
            decoded_packet_tx,
            handed: Ghost(Seq::empty()),
            outcomes: Ghost(Seq::empty()),
            sent: Ghost(Seq::empty()),
        }
    }

    /// Feeds `data` through the framing rules, byte by byte, and returns the
    /// payloads of the frames it completes, in order. Nothing is decoded or
    /// sent.
    pub fn extract_frames(&mut self, data: &[u8]) -> (frames: Vec<Vec<u8>>)
        requires
            old(self).wf(),
        ensures
            final(self).wf(),
            final(self)@ == run(old(self)@, data@).0,
            final(self).sender() == old(self).sender(),
            final(self).handed() == old(self).handed(),
            final(self).outcomes() == old(self).outcomes(),
            final(self).sent() == old(self).sent(),
            frames@.len() == run(old(self)@, data@).1.len(),
            forall|j: int|
                0 <= j < frames@.len() ==> #[trigger] frames@[j]@ == run(old(self)@, data@).1[j],
    {
        let mut frames: Vec<Vec<u8>> = Vec::new();
        let mut i: usize = 0;
        while i < data.len()
            invariant
                i <= data@.len(),
                buffer_wf(self.buffer@),
                self.decoded_packet_tx == old(self).decoded_packet_tx,
                self.handed == old(self).handed,
                self.outcomes == old(self).outcomes,
                self.sent == old(self).sent,
                (self.buffer@, frames@.map_values(|f: Vec<u8>| f@)) == run(
                    old(self).buffer@,
                    data@.take(i as int),
                ),
            decreases data@.len() - i,
        {
            let ghost before = self.buffer@;
            let ghost done = frames@.map_values(|f: Vec<u8>| f@);
            let b = data[i];
            let pos = self.buffer.len();
            self.buffer.push(b);
            if pos == 0 {
                if b != SYNC_1 {
                    self.buffer.clear();
                }
            } else if pos == 1 {
                if b != SYNC_2 {
                    self.buffer.clear();
                }
            } else if pos >= 3 {
                let len = (self.buffer[2] as usize) * 256 + (self.buffer[3] as usize);
                if pos == 3 && len > MAX_PAYLOAD_LEN as usize {
                    self.buffer.clear();
                } else if pos + 1 >= len + HEADER_LEN {
                    let payload = self.buffer.split_off(HEADER_LEN);
                    self.buffer.clear();
                    frames.push(payload);
                    proof {
                        assert(payload@ =~= before.push(b).subrange(4, 4 + len as int));
                        assert(frames@.map_values(|f: Vec<u8>| f@) =~= done.push(payload@));
                    }
                }
            }
            proof {
                crate::framing::lemma_step_wf(before, b);
                assert(data@.take(i + 1).drop_last() =~= data@.take(i as int));
            }
            i += 1;
        }
        assert(data@.take(data@.len() as int) =~= data@);
        assert forall|j: int| 0 <= j < frames@.len() implies #[trigger] frames@[j]@ == run(
            old(self)@,
            data@,
        ).1[j] by {
            assert(frames@.map_values(|f: Vec<u8>| f@)[j] == frames@[j]@);
        }
        frames
    }
}

impl<M: prost::Message + Default> StreamBuffer<M> {
    /// Appends `data` to the stream: the payload of every frame it completes
    /// is handed to the decoder, in order, and each message that decodes is
    /// sent to the output channel, in the same order. Malformed input and
    /// payloads that do not decode are discarded; a channel without receiver
    /// drops what is sent.
    pub fn process_incoming_bytes(&mut self, data: &[u8])
        requires
            old(self).wf(),
        ensures
            final(self).wf(),
            final(self)@ == run(old(self)@, data@).0,
            final(self).sender() == old(self).sender(),
            final(self).handed() == old(self).handed() + run(old(self)@, data@).1,
            final(self).outcomes().take(old(self).outcomes().len() as int) == old(self).outcomes(),
            final(self).sent() == old(self).sent() + decoded_messages(
                final(self).outcomes().skip(old(self).outcomes().len() as int),
            ),
    {
        let ghost start = self.outcomes@.len() as int;
        let frames = self.extract_frames(data);
        let ghost payloads = run(old(self)@, data@).1;
        let mut k: usize = 0;
        proof {
            assert(self.outcomes@.take(start) =~= self.outcomes@);
            assert(self.outcomes@.skip(start) =~= Seq::<Option<M>>::empty());
            assert(self.sent@ + Seq::<M>::empty() =~= self.sent@);
            assert(payloads.take(0) =~= Seq::<Seq<u8>>::empty());
            assert(self.handed@ + Seq::<Seq<u8>>::empty() =~= self.handed@);
        }
        while k < frames.len()
            invariant
                k <= frames@.len(),
                frames@.len() == payloads.len(),
                forall|j: int| 0 <= j < frames@.len() ==> #[trigger] frames@[j]@ == payloads[j],
                self.wf(),
                self@ == run(old(self)@, data@).0,
                self.decoded_packet_tx == old(self).decoded_packet_tx,
                self.handed@ == old(self).handed@ + payloads.take(k as int),
                self.outcomes@.len() == start + k,
                self.outcomes@.take(start) == old(self).outcomes@,
                self.sent@ == old(self).sent@ + decoded_messages(self.outcomes@.skip(start)),
            decreases frames@.len() - k,
        {
            let outcome = decode_payload::<M>(frames[k].as_slice());
            proof {
                let prev = self.outcomes@;
                self.handed@ = self.handed@.push(frames@[k as int]@);
                self.outcomes@ = prev.push(outcome);
                assert(payloads.take(k + 1) =~= payloads.take(k as int).push(payloads[k as int]));
                assert(old(self).handed@ + payloads.take(k + 1) =~= (old(self).handed@
                    + payloads.take(k as int)).push(payloads[k as int]));
                assert(self.outcomes@.take(start) =~= prev.take(start));
                assert(self.outcomes@.skip(start).drop_last() =~= prev.skip(start));
                assert(self.outcomes@.drop_last() =~= prev);
            }
            match outcome {
                Some(packet) => {
                    proof {
                        self.sent@ = self.sent@.push(packet);
                    }
                    send_packet(&self.decoded_packet_tx, packet);
                },
                None => {},
            }
            k += 1;
        }
        proof {
            assert(payloads.take(frames@.len() as int) =~= payloads);
        }
    }
}

} // verus!
