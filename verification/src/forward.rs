//! The forwarding discipline: how one datagram's payload reaches the shared
//! output stream, and what a worker does on each receive event.

use vstd::prelude::*;
use crate::supervisor::FailureClass;
use crate::text::is_utf8;
use crate::text::lemma_lossy_never_drops;
use crate::text::lemma_lossy_preserves_utf8;
use crate::text::utf8_lossy;
use crate::text::utf8_lossy_decode;

verus! {

/// The process-wide output discipline, fixed at startup: raw bytes, or
/// lossily decoded UTF-8 text.
#[derive(Clone, Copy, Debug, PartialEq, Eq, Structural)]
pub enum OutputMode {
    Binary,
    Text,
}

/// What one datagram's payload looks like on the output stream.
pub open spec fn encoded_payload(mode: OutputMode, payload: Seq<u8>) -> Seq<u8> {
    match mode {
        OutputMode::Binary => payload,
        OutputMode::Text => utf8_lossy(payload),
    }
}

/// An exact copy of a byte vector.
pub fn copy_bytes(v: &Vec<u8>) -> (r: Vec<u8>)
    ensures
        r@ == v@,
{
    let mut out: Vec<u8> = Vec::new();
    let n = v.len();
    let mut k: usize = 0;
    while k < n
        invariant
            k <= n,
            n == v@.len(),
            out@ == v@.take(k as int),
        decreases n - k,
    {
        proof {
            assert(v@.take(k + 1) =~= v@.take(k as int).push(v@[k as int]));
        }
        let byte = v[k];
        out.push(byte);
        k = k + 1;
    }
    proof {
        assert(v@.take(n as int) =~= v@);
    }
    out
}

/// Encodes one datagram for the output stream: in binary mode the payload
/// itself, byte for byte; in text mode its lossy UTF-8 decoding.
pub fn encode_datagram(mode: OutputMode, payload: &Vec<u8>) -> (r: Vec<u8>)
    ensures
        r@ == encoded_payload(mode, payload@),
{
    match mode {
        OutputMode::Binary => copy_bytes(payload),
        OutputMode::Text => utf8_lossy_decode(payload),
    }
}

/// The single shared output stream, modelled as the bytes accepted so far.
/// Each `write` appends one datagram's bytes in a single atomic step — the
/// serialization the real stream must provide.
pub struct OutputSink {
    stream: Vec<u8>,
}

impl OutputSink {
    /// Everything the sink has accepted, in order.
    pub closed spec fn contents(&self) -> Seq<u8> {
        self.stream@
    }

    pub fn new() -> (r: OutputSink)
        ensures
            r.contents() == Seq::<u8>::empty(),
    {
        OutputSink { stream: Vec::new() }
    }

    /// One atomic write: the bytes join the stream in one piece, with
    /// nothing of any other write between them.
    pub fn write(&mut self, data: &Vec<u8>)
        ensures
            final(self).contents() == old(self).contents() + data@,
    {
        let ghost before = self.stream@;
        let n = data.len();
        let mut k: usize = 0;
        while k < n
            invariant
                k <= n,
                n == data@.len(),
                self.stream@ == before + data@.take(k as int),
            decreases n - k,
        {
            proof {
                assert(before + data@.take(k + 1) =~= (before + data@.take(k as int)).push(
                    data@[k as int],
                ));
            }
            let byte = data[k];
            self.stream.push(byte);
            k = k + 1;
        }
        proof {
            assert(data@.take(n as int) =~= data@);
        }
    }

    /// The accepted bytes, for inspection.
    pub fn bytes(&self) -> (r: &Vec<u8>)
        ensures
            r@ == self.contents(),
    {
        &self.stream
    }
}

/// Forwards one datagram: encodes it for the mode and hands the sink one
/// atomic write. The datagram is never dropped, whatever bytes it holds.
pub fn forward_datagram(mode: OutputMode, payload: &Vec<u8>, sink: &mut OutputSink)
    ensures
        final(sink).contents() == old(sink).contents() + encoded_payload(mode, payload@),
{
    let data = encode_datagram(mode, payload);
    sink.write(&data);
}

/// One receive event, as a worker's loop sees it.
pub enum WorkerEvent {
    Received(Vec<u8>),
    ReceiveFailed,
    WriteFailed,
}

/// What the worker does next: hand the sink one encoded write, or stop under
/// the failure class that names its exit code.
pub enum WorkerAction {
    Forward(Vec<u8>),
    Stop(FailureClass),
}

/// The worker's decision for one event. A received datagram is always
/// forwarded, encoded for the mode; any I/O failure stops the worker — a
/// receive failure under its own class, a write failure under the class of
/// the active output mode. There is no retry.
pub fn worker_step(mode: OutputMode, event: WorkerEvent) -> (r: WorkerAction)
    ensures
        (event matches WorkerEvent::Received(p) ==> r matches WorkerAction::Forward(out) && out@
            == encoded_payload(mode, p@)),
        event is ReceiveFailed ==> r == WorkerAction::Stop(FailureClass::Receive),
        event is WriteFailed ==> r == WorkerAction::Stop(
            if mode is Binary {
                FailureClass::BinaryWrite
            } else {
                FailureClass::TextWrite
            },
        ),
{
    match event {
        WorkerEvent::Received(p) => WorkerAction::Forward(encode_datagram(mode, &p)),
        WorkerEvent::ReceiveFailed => WorkerAction::Stop(FailureClass::Receive),
        WorkerEvent::WriteFailed => WorkerAction::Stop(
            match mode {
                OutputMode::Binary => FailureClass::BinaryWrite,
                OutputMode::Text => FailureClass::TextWrite,
            },
        ),
    }
}

/// `d` stands whole and uninterrupted somewhere in `stream`.
pub open spec fn contains_contiguous(stream: Seq<u8>, d: Seq<u8>) -> bool {
    exists|k: int|
        0 <= k <= stream.len() - d.len() && #[trigger] stream.subrange(k, k + d.len()) == d
}

/// In binary mode the stream receives the payload itself: byte for byte,
/// with no replacement and no transformation.
pub proof fn lemma_binary_identity(payload: Seq<u8>)
    ensures
        encoded_payload(OutputMode::Binary, payload) == payload,
{
}

/// In text mode no datagram is dropped: a nonempty payload always yields
/// output, and well-formed UTF-8 passes through unchanged (each ill-formed
/// sequence becomes exactly one replacement character; see `utf8_lossy`).
pub proof fn lemma_text_mode_total(payload: Seq<u8>)
    ensures
        payload.len() > 0 ==> encoded_payload(OutputMode::Text, payload).len() > 0,
        is_utf8(payload) ==> encoded_payload(OutputMode::Text, payload) == payload,
{
    if payload.len() > 0 {
        lemma_lossy_never_drops(payload);
    }
    if is_utf8(payload) {
        lemma_lossy_preserves_utf8(payload);
    }
}

/// Two datagrams written by racing workers: the sink serializes the writes
/// in one order or the other, and in both orders each datagram's bytes stand
/// whole and uninterrupted in the stream.
pub proof fn lemma_writes_never_interleave(pre: Seq<u8>, d1: Seq<u8>, d2: Seq<u8>)
    ensures
        contains_contiguous(pre + d1 + d2, d1),
        contains_contiguous(pre + d1 + d2, d2),
        contains_contiguous(pre + d2 + d1, d1),
        contains_contiguous(pre + d2 + d1, d2),
{
    let a = pre.len() as int;
    assert((pre + d1 + d2).subrange(a, a + d1.len()) =~= d1);
    assert((pre + d1 + d2).subrange(a + d1.len(), a + d1.len() + d2.len()) =~= d2);
    assert((pre + d2 + d1).subrange(a + d2.len(), a + d2.len() + d1.len()) =~= d1);
    assert((pre + d2 + d1).subrange(a, a + d2.len()) =~= d2);
}

} // verus!
