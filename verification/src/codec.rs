//! Wire-framing codec for the agent control channel.
//!
//! Relay to agent, one message per forwarded request:
//! `"<request-id>\n<METHOD> <path> <version>\n<Header>: <value>\n...\n\n<body?>"`
//! followed by the literal terminator `<<<EOF>>>`. Header keys are
//! rendered hyphen-segment-capitalized (`content-type` becomes
//! `Content-Type`).
//!
//! Agent to relay, one frame per reply: a header `"<id>:::<length>"`,
//! the separator `"\n\n\n"`, then `length` payload bytes, possibly
//! spread over several reads. Decoding is a two-state machine: `Idle`
//! splits a chunk at the first separator and parses the header;
//! `Fragmented` treats every further chunk as payload until the declared
//! length is reached. A chunk that is not valid text, or a header that
//! does not parse, yields the sentinel error frame and resets the
//! machine; this is local to the one pending reply.

use vstd::prelude::*;

use crate::text::{
    dec_value, find_triple, find_triple_spec, is_digits, lemma_find_triple_first, parse_decimal,
    sub_bytes, to_lower, to_upper, triple_at,
};
use vstd::string::StringSliceAdditionalSpecFns;

verus! {

/// The newline byte, `\n`.
pub const NL: u8 = 10;

/// The colon byte, `:`.
pub const COLON: u8 = 58;

/// The space byte.
pub const SP: u8 = 32;

/// Sentinel payload put on the inbound queue when a frame could not be
/// decoded.
pub open spec fn epackfrag() -> Seq<u8> {
    ("EPACKFRAG").spec_bytes()
}

/// The sentinel as bytes.
pub fn epackfrag_bytes() -> (r: Vec<u8>)
    ensures
        r@ == epackfrag(),
{
    vstd::slice::slice_to_vec(("EPACKFRAG").as_bytes())
}

/// Terminator written after every encoded request.
pub open spec fn terminator() -> Seq<u8> {
    ("<<<EOF>>>").spec_bytes()
}

/// Handshake written to an agent right after it connects, telling it
/// its assigned public endpoint.
pub open spec fn handshake_of(endpoint: Seq<u8>) -> Seq<u8> {
    ("connection\n").spec_bytes() + endpoint
}

/// Builds the handshake message for `endpoint`.
pub fn encode_handshake(endpoint: &Vec<u8>) -> (r: Vec<u8>)
    ensures
        r@ == handshake_of(endpoint@),
{
    let mut r = vstd::slice::slice_to_vec(("connection\n").as_bytes());
    r.extend_from_slice(endpoint.as_slice());
    proof {
        assert(r@ =~= handshake_of(endpoint@));
    }
    r
}

/// A header key in canonical casing: the first letter of every
/// hyphen-separated segment upper case, the rest lower case.
pub open spec fn canon_key(k: Seq<u8>) -> Seq<u8> {
    Seq::new(
        k.len(),
        |i: int|
            if i == 0 || k[i - 1] == 45 {
                to_upper(k[i])
            } else {
                to_lower(k[i])
            },
    )
}

/// Renders a header key in canonical casing.
pub fn canon_key_bytes(k: &Vec<u8>) -> (r: Vec<u8>)
    ensures
        r@ == canon_key(k@),
{
    let mut r: Vec<u8> = Vec::new();
    let mut i: usize = 0;
    while i < k.len()
        invariant
            0 <= i <= k@.len(),
            r@ == canon_key(k@).take(i as int),
        decreases k@.len() - i,
    {
        let b = k[i];
        let up: bool = if i == 0 {
            true
        } else {
            k[i - 1] == 45
        };
        let c: u8 = if up {
            if 97 <= b && b <= 122 {
                b - 32
            } else {
                b
            }
        } else {
            if 65 <= b && b <= 90 {
                b + 32
            } else {
                b
            }
        };
        r.push(c);
        proof {
            assert(r@ =~= canon_key(k@).take(i + 1));
        }
        i = i + 1;
    }
    proof {
        assert(canon_key(k@).take(i as int) =~= canon_key(k@));
    }
    r
}

/// The header lines of a rendered request: one `<Key>: <value>\n` line
/// per header, keys in canonical casing, in the given order.
pub open spec fn render_header_lines(headers: Seq<(Seq<u8>, Seq<u8>)>) -> Seq<u8>
    decreases headers.len(),
{
    if headers.len() == 0 {
        Seq::empty()
    } else {
        render_header_lines(headers.drop_last()) + canon_key(headers.last().0) + seq![COLON, SP]
            + headers.last().1 + seq![NL]
    }
}

/// An optional body is preceded by a blank line; an empty body leaves
/// the message unchanged.
pub open spec fn render_body(body: Seq<u8>) -> Seq<u8> {
    if body.len() == 0 {
        Seq::empty()
    } else {
        seq![NL] + body
    }
}

/// The full wire text for one forwarded request, terminator included.
pub open spec fn render_request(
    id: Seq<u8>,
    method: Seq<u8>,
    path: Seq<u8>,
    version: Seq<u8>,
    headers: Seq<(Seq<u8>, Seq<u8>)>,
    body: Seq<u8>,
) -> Seq<u8> {
    id + seq![NL] + method + seq![SP] + path + seq![SP] + version + seq![NL]
        + render_header_lines(headers) + render_body(body) + terminator()
}

/// Encodes one forwarded request as wire text plus terminator.
pub fn encode_request(
    id: &Vec<u8>,
    method: &Vec<u8>,
    path: &Vec<u8>,
    version: &Vec<u8>,
    headers: &Vec<(Vec<u8>, Vec<u8>)>,
    body: &Vec<u8>,
) -> (r: Vec<u8>)
    ensures
        r@ == render_request(id@, method@, path@, version@, headers.deep_view(), body@),
{
    let mut r: Vec<u8> = Vec::new();
    r.extend_from_slice(id.as_slice());
    r.push(NL);
    r.extend_from_slice(method.as_slice());
    r.push(SP);
    r.extend_from_slice(path.as_slice());
    r.push(SP);
    r.extend_from_slice(version.as_slice());
    r.push(NL);
    proof {
        assert(r@ =~= id@ + seq![NL] + method@ + seq![SP] + path@ + seq![SP] + version@
            + seq![NL]);
    }
    let ghost prefix = r@;
    let mut i: usize = 0;
    while i < headers.len()
        invariant
            0 <= i <= headers@.len(),
            headers@.len() == headers.deep_view().len(),
            r@ == prefix + render_header_lines(headers.deep_view().take(i as int)),
        decreases headers@.len() - i,
    {
        let ghost before = r@;
        let key = canon_key_bytes(&headers[i].0);
        r.extend_from_slice(key.as_slice());
        r.push(COLON);
        r.push(SP);
        r.extend_from_slice(headers[i].1.as_slice());
        r.push(NL);
        proof {
            let hs = headers.deep_view();
            assert(hs.take(i + 1).drop_last() =~= hs.take(i as int));
            assert(hs.take(i + 1).last() == hs[i as int]);
            assert(hs[i as int].0 == headers@[i as int].0@);
            assert(hs[i as int].1 == headers@[i as int].1@);
            assert(r@ =~= before + canon_key(hs[i as int].0) + seq![COLON, SP] + hs[i as int].1
                + seq![NL]);
        }
        i = i + 1;
    }
    proof {
        assert(headers.deep_view().take(i as int) =~= headers.deep_view());
    }
    if body.len() > 0 {
        let ghost before = r@;
        r.push(NL);
        r.extend_from_slice(body.as_slice());
        proof {
            assert(r@ =~= before + (seq![NL] + body@));
        }
    }
    let ghost before = r@;
    r.extend_from_slice(("<<<EOF>>>").as_bytes());
    proof {
        assert(r@ =~= before + terminator());
        assert(r@ =~= render_request(id@, method@, path@, version@, headers.deep_view(), body@));
    }
    r
}

/// Relies on `core::str::from_utf8`: it returns `Ok` exactly for the
/// byte sequences that are valid UTF-8.
#[verifier::external_body]
pub(crate) fn is_valid_utf8(v: &Vec<u8>) -> (r: bool)
    ensures
        r == vstd::utf8::valid_utf8(v@),
{
    core::str::from_utf8(v.as_slice()).is_ok()
}

/// The reply-frame header `<id>:::<length>`: the id is everything
/// before the first `:::`, the rest must be a decimal length that fits
/// in `usize`.
pub open spec fn parse_frame_header_spec(h: Seq<u8>) -> Option<(Seq<u8>, nat)> {
    match find_triple_spec(h, COLON) {
        None => None,
        Some(i) => {
            let digits = h.skip(i + 3);
            if is_digits(digits) && dec_value(digits) <= usize::MAX {
                Some((h.take(i), dec_value(digits)))
            } else {
                None
            }
        },
    }
}

/// Parses a reply-frame header.
pub fn parse_frame_header(h: &Vec<u8>) -> (r: Option<(Vec<u8>, usize)>)
    ensures
        match r {
            Some(p) => parse_frame_header_spec(h@) == Some((p.0@, p.1 as nat)),
            None => parse_frame_header_spec(h@) is None,
        },
{
    let n = h.len();
    match find_triple(h, COLON) {
        None => None,
        Some(i) => {
            proof {
                lemma_find_triple_first(h@, COLON);
                assert(triple_at(h@, COLON, i as int));
            }
            let id = sub_bytes(h, 0, i);
            let digits = sub_bytes(h, i + 3, n);
            proof {
                assert(id@ =~= h@.take(i as int));
                assert(digits@ =~= h@.skip(i + 3));
            }
            match parse_decimal(&digits) {
                None => None,
                Some(total) => Some((id, total)),
            }
        },
    }
}

/// Decoder state: `Idle` between frames, `Fragmented` while a frame's
/// payload is still shorter than its declared length.
pub enum DecoderView {
    Idle,
    Fragmented { id: Seq<u8>, total: nat, acc: Seq<u8> },
}

/// What one decoded chunk produced.
pub enum DecodeEvent {
    /// The chunk was absorbed; no complete frame yet.
    Pending,
    /// A complete frame: the reply for `id` is `payload`.
    Frame { id: Vec<u8>, payload: Vec<u8> },
    /// The chunk was not decodable; `pending_id` is the id of the frame
    /// that was in flight, empty if none was.
    Malformed { pending_id: Vec<u8> },
}

/// Specification-level image of a [`DecodeEvent`].
pub enum DecodeEventView {
    Pending,
    Frame { id: Seq<u8>, payload: Seq<u8> },
    Malformed { pending_id: Seq<u8> },
}

impl View for DecodeEvent {
    type V = DecodeEventView;

    open spec fn view(&self) -> DecodeEventView {
        match self {
            DecodeEvent::Pending => DecodeEventView::Pending,
            DecodeEvent::Frame { id, payload } => DecodeEventView::Frame {
                id: id@,
                payload: payload@,
            },
            DecodeEvent::Malformed { pending_id } => DecodeEventView::Malformed {
                pending_id: pending_id@,
            },
        }
    }
}

/// The id of the frame in flight, empty when none is.
pub open spec fn pending_of(s: DecoderView) -> Seq<u8> {
    match s {
        DecoderView::Idle => Seq::empty(),
        DecoderView::Fragmented { id, .. } => id,
    }
}

/// One step of the decode state machine on a fresh chunk from Idle.
pub open spec fn spec_feed_idle(chunk: Seq<u8>) -> (DecoderView, DecodeEventView) {
    match find_triple_spec(chunk, NL) {
        None => (
            DecoderView::Idle,
            DecodeEventView::Malformed { pending_id: Seq::empty() },
        ),
        Some(i) => {
            let data = chunk.skip(i + 3);
            match parse_frame_header_spec(chunk.take(i)) {
                None => (
                    DecoderView::Idle,
                    DecodeEventView::Malformed { pending_id: Seq::empty() },
                ),
                Some((id, total)) => {
                    if data.len() == total {
                        (DecoderView::Idle, DecodeEventView::Frame { id, payload: data })
                    } else {
                        (
                            DecoderView::Fragmented { id, total, acc: data },
                            DecodeEventView::Pending,
                        )
                    }
                },
            }
        },
    }
}

/// One step of the decode state machine on one read chunk.
pub open spec fn spec_feed(s: DecoderView, chunk: Seq<u8>) -> (DecoderView, DecodeEventView) {
    if !vstd::utf8::valid_utf8(chunk) {
        (DecoderView::Idle, DecodeEventView::Malformed { pending_id: pending_of(s) })
    } else {
        match s {
            DecoderView::Fragmented { id, total, acc } => {
                let acc2 = acc + chunk;
                if acc2.len() == total {
                    (DecoderView::Idle, DecodeEventView::Frame { id, payload: acc2 })
                } else {
                    (DecoderView::Fragmented { id, total, acc: acc2 }, DecodeEventView::Pending)
                }
            },
            DecoderView::Idle => spec_feed_idle(chunk),
        }
    }
}

/// The decode state machine for one agent connection.
pub struct Decoder {
    fragmented: bool,
    pending_id: Vec<u8>,
    total: usize,
    acc: Vec<u8>,
}

impl View for Decoder {
    type V = DecoderView;

    closed spec fn view(&self) -> DecoderView {
        if self.fragmented {
            DecoderView::Fragmented {
                id: self.pending_id@,
                total: self.total as nat,
                acc: self.acc@,
            }
        } else {
            DecoderView::Idle
        }
    }
}

impl Decoder {
    /// Holds between calls: an idle decoder keeps no leftover state.
    pub closed spec fn wf(self) -> bool {
        !self.fragmented ==> self.pending_id@.len() == 0 && self.acc@.len() == 0
    }

    /// A fresh decoder, idle.
    pub fn new() -> (d: Decoder)
        ensures
            d@ == DecoderView::Idle,
            d.wf(),
    {
        Decoder { fragmented: false, pending_id: Vec::new(), total: 0, acc: Vec::new() }
    }

    /// Feeds one read chunk through the state machine.
    pub fn feed(&mut self, chunk: &Vec<u8>) -> (e: DecodeEvent)
        requires
            old(self).wf(),
        ensures
            final(self).wf(),
            (final(self)@, e@) == spec_feed(old(self)@, chunk@),
    {
        if !is_valid_utf8(chunk) {
            let mut pend: Vec<u8> = Vec::new();
            core::mem::swap(&mut pend, &mut self.pending_id);
            self.fragmented = false;
            self.total = 0;
            self.acc = Vec::new();
            proof {
                if !old(self).fragmented {
                    assert(pend@ =~= Seq::<u8>::empty());
                }
            }
            return DecodeEvent::Malformed { pending_id: pend };
        }
        if self.fragmented {
            let mut tail = vstd::slice::slice_to_vec(chunk.as_slice());
            self.acc.append(&mut tail);
            if self.acc.len() == self.total {
                let mut id: Vec<u8> = Vec::new();
                core::mem::swap(&mut id, &mut self.pending_id);
                let mut payload: Vec<u8> = Vec::new();
                core::mem::swap(&mut payload, &mut self.acc);
                self.fragmented = false;
                self.total = 0;
                return DecodeEvent::Frame { id, payload };
            }
            return DecodeEvent::Pending;
        }
        let n = chunk.len();
        match find_triple(chunk, NL) {
            None => DecodeEvent::Malformed { pending_id: Vec::new() },
            Some(i) => {
                proof {
                    lemma_find_triple_first(chunk@, NL);
                    assert(triple_at(chunk@, NL, i as int));
                }
                let header = sub_bytes(chunk, 0, i);
                let data = sub_bytes(chunk, i + 3, n);
                proof {
                    assert(header@ =~= chunk@.take(i as int));
                    assert(data@ =~= chunk@.skip(i + 3));
                }
                match parse_frame_header(&header) {
                    None => DecodeEvent::Malformed { pending_id: Vec::new() },
                    Some((id, total)) => {
                        if data.len() == total {
                            DecodeEvent::Frame { id, payload: data }
                        } else {
                            self.fragmented = true;
                            self.pending_id = id;
                            self.total = total;
                            self.acc = data;
                            DecodeEvent::Pending
                        }
                    },
                }
            },
        }
    }
}

/// What one decode event puts on the session's inbound queue: a decoded
/// frame as is, a malformed chunk as the sentinel against the pending
/// id, an absorbed chunk nothing.
pub open spec fn event_message_spec(e: DecodeEventView) -> Option<(Seq<u8>, Seq<u8>)> {
    match e {
        DecodeEventView::Pending => None,
        DecodeEventView::Frame { id, payload } => Some((id, payload)),
        DecodeEventView::Malformed { pending_id } => Some((pending_id, epackfrag())),
    }
}

/// Turns a decode event into the message for the inbound queue.
pub fn event_message(e: DecodeEvent) -> (r: Option<(Vec<u8>, Vec<u8>)>)
    ensures
        match r {
            Some(m) => event_message_spec(e@) == Some((m.0@, m.1@)),
            None => event_message_spec(e@) is None,
        },
{
    match e {
        DecodeEvent::Pending => None,
        DecodeEvent::Frame { id, payload } => Some((id, payload)),
        DecodeEvent::Malformed { pending_id } => Some((pending_id, epackfrag_bytes())),
    }
}


/// Bytes of several reads, in order.
pub open spec fn concat_chunks(chunks: Seq<Seq<u8>>) -> Seq<u8>
    decreases chunks.len(),
{
    if chunks.len() == 0 {
        Seq::empty()
    } else {
        chunks[0] + concat_chunks(chunks.skip(1))
    }
}

/// The decoder run over several reads, with the event of each.
pub open spec fn spec_feed_all(s: DecoderView, chunks: Seq<Seq<u8>>) -> (
    DecoderView,
    Seq<DecodeEventView>,
)
    decreases chunks.len(),
{
    if chunks.len() == 0 {
        (s, Seq::empty())
    } else {
        let (s1, e1) = spec_feed(s, chunks[0]);
        let (s2, es) = spec_feed_all(s1, chunks.skip(1));
        (s2, seq![e1] + es)
    }
}

/// A chunk that is not valid text resets the decoder and reports the
/// sentinel against the id that was pending, and nothing else: the
/// failure is local to that one reply.
pub proof fn lemma_malformed_resets(s: DecoderView, bad: Seq<u8>)
    requires
        !vstd::utf8::valid_utf8(bad),
    ensures
        spec_feed(s, bad) == (
            DecoderView::Idle,
            DecodeEventView::Malformed { pending_id: pending_of(s) },
        ),
{
}

/// A single chunk holding a whole well-formed frame head: the header,
/// the separator, then data. With the declared length already reached
/// the frame is emitted at once; with less data the decoder starts
/// accumulating under the parsed id.
pub proof fn lemma_idle_frame_chunk(header: Seq<u8>, data: Seq<u8>)
    requires
        vstd::utf8::valid_utf8(header + seq![NL, NL, NL] + data),
        forall|j: int| 0 <= j < header.len() ==> header[j] != NL,
        parse_frame_header_spec(header) is Some,
    ensures
        ({
            let (id, len) = parse_frame_header_spec(header)->Some_0;
            let chunk = header + seq![NL, NL, NL] + data;
            if data.len() == len {
                spec_feed(DecoderView::Idle, chunk) == (
                    DecoderView::Idle,
                    DecodeEventView::Frame { id, payload: data },
                )
            } else {
                spec_feed(DecoderView::Idle, chunk) == (
                    DecoderView::Fragmented { id, total: len, acc: data },
                    DecodeEventView::Pending,
                )
            }
        }),
{
    let chunk = header + seq![NL, NL, NL] + data;
    let hl = header.len() as int;
    assert(chunk[hl] == NL && chunk[hl + 1] == NL && chunk[hl + 2] == NL);
    assert(triple_at(chunk, NL, hl));
    lemma_find_triple_first(chunk, NL);
    assert forall|j: int| 0 <= j < hl implies !triple_at(chunk, NL, j) by {
        assert(chunk[j] == header[j]);
    }
    match find_triple_spec(chunk, NL) {
        None => {
            assert(false);
        },
        Some(i) => {
            if i < hl {
                assert(!triple_at(chunk, NL, i));
            }
            if i > hl {
                assert(!triple_at(chunk, NL, hl));
            }
            assert(i == hl);
            assert(chunk.take(hl) =~= header);
            assert(chunk.skip(hl + 3) =~= data);
        },
    }
}

/// Malformed text mid-frame is local: it yields the sentinel for the
/// one pending id, and the very next well-formed frame on the same
/// connection decodes as if nothing had happened.
pub proof fn lemma_malformed_mid_frame(
    id: Seq<u8>,
    total: nat,
    acc: Seq<u8>,
    bad: Seq<u8>,
    header: Seq<u8>,
    data: Seq<u8>,
)
    requires
        !vstd::utf8::valid_utf8(bad),
        vstd::utf8::valid_utf8(header + seq![NL, NL, NL] + data),
        forall|j: int| 0 <= j < header.len() ==> header[j] != NL,
        parse_frame_header_spec(header) matches Some(h) && data.len() == h.1,
    ensures
        ({
            let (s1, e1) = spec_feed(DecoderView::Fragmented { id, total, acc }, bad);
            let (s2, e2) = spec_feed(s1, header + seq![NL, NL, NL] + data);
            &&& e1 == DecodeEventView::Malformed { pending_id: id }
            &&& s1 == DecoderView::Idle
            &&& e2 == DecodeEventView::Frame {
                id: parse_frame_header_spec(header)->Some_0.0,
                payload: data,
            }
            &&& s2 == DecoderView::Idle
        }),
{
    lemma_malformed_resets(DecoderView::Fragmented { id, total, acc }, bad);
    lemma_idle_frame_chunk(header, data);
}

/// Reassembly: while a frame is in flight, every further chunk is pure
/// continuation payload. Feeding reads whose accumulated length first
/// reaches the declared total at the last read yields exactly one
/// emission: the frame, its payload all the bytes in order.
pub proof fn lemma_fragmented_reassembly(
    id: Seq<u8>,
    total: nat,
    acc: Seq<u8>,
    chunks: Seq<Seq<u8>>,
)
    requires
        chunks.len() > 0,
        forall|i: int| 0 <= i < chunks.len() ==> vstd::utf8::valid_utf8(#[trigger] chunks[i]),
        acc.len() + concat_chunks(chunks).len() == total,
        forall|i: int|
            0 < i < chunks.len() ==> acc.len() + concat_chunks(#[trigger] chunks.take(i)).len()
                < total,
    ensures
        ({
            let (s2, events) = spec_feed_all(DecoderView::Fragmented { id, total, acc }, chunks);
            &&& s2 == DecoderView::Idle
            &&& events.len() == chunks.len()
            &&& events.last() == DecodeEventView::Frame { id, payload: acc + concat_chunks(chunks) }
            &&& forall|i: int|
                0 <= i < events.len() - 1 ==> #[trigger] events[i] == DecodeEventView::Pending
        }),
    decreases chunks.len(),
{
    let s0 = DecoderView::Fragmented { id, total, acc };
    let acc2 = acc + chunks[0];
    if chunks.len() == 1 {
        assert(chunks.skip(1) =~= Seq::<Seq<u8>>::empty());
        assert(concat_chunks(chunks) == chunks[0] + concat_chunks(chunks.skip(1)));
        assert(concat_chunks(chunks.skip(1)) =~= Seq::<u8>::empty());
        assert(chunks[0] + Seq::<u8>::empty() =~= chunks[0]);
        assert(acc2.len() == total);
        assert(acc2 =~= acc + concat_chunks(chunks));
        let (s1, e1) = spec_feed(s0, chunks[0]);
        assert(e1 == DecodeEventView::Frame { id, payload: acc2 });
        assert(s1 == DecoderView::Idle);
        assert(spec_feed_all(s1, chunks.skip(1)) == (s1, Seq::<DecodeEventView>::empty()));
        let (s2, events) = spec_feed_all(s0, chunks);
        assert(events == seq![e1] + Seq::<DecodeEventView>::empty());
        assert(events =~= seq![e1]);
        assert(events.last() == e1);
    } else {
        assert(chunks.take(1) =~= seq![chunks[0]]);
        assert(concat_chunks(seq![chunks[0]]) == chunks[0] + concat_chunks(
            seq![chunks[0]].skip(1),
        ));
        assert(seq![chunks[0]].skip(1) =~= Seq::<Seq<u8>>::empty());
        assert(chunks[0] + Seq::<u8>::empty() =~= chunks[0]);
        assert(acc2.len() < total);
        let rest = chunks.skip(1);
        assert(concat_chunks(chunks) == chunks[0] + concat_chunks(rest));
        assert(acc2.len() + concat_chunks(rest).len() == total);
        assert forall|i: int|
            0 < i < rest.len() implies acc2.len() + concat_chunks(#[trigger] rest.take(i)).len()
            < total by {
            assert(chunks.take(i + 1) =~= seq![chunks[0]] + rest.take(i));
            assert((seq![chunks[0]] + rest.take(i))[0] == chunks[0]);
            assert((seq![chunks[0]] + rest.take(i)).skip(1) =~= rest.take(i));
            assert(concat_chunks(chunks.take(i + 1)) == chunks[0] + concat_chunks(rest.take(i)));
            assert(acc.len() + concat_chunks(chunks.take(i + 1)).len() < total);
        }
        assert(forall|i: int| 0 <= i < rest.len() ==> vstd::utf8::valid_utf8(#[trigger] rest[i]));
        lemma_fragmented_reassembly(id, total, acc2, rest);
        let (s1, e1) = spec_feed(s0, chunks[0]);
        assert(s1 == DecoderView::Fragmented { id, total, acc: acc2 });
        assert(e1 == DecodeEventView::Pending);
        let (s2, es) = spec_feed_all(s1, rest);
        assert(acc2 + concat_chunks(rest) =~= acc + concat_chunks(chunks));
        let (sf, events) = spec_feed_all(s0, chunks);
        assert(events == seq![e1] + es);
        assert(events.last() == es.last());
        assert forall|i: int| 0 <= i < events.len() - 1 implies #[trigger] events[i]
            == DecodeEventView::Pending by {
            if i >= 1 {
                assert(es[i - 1] == DecodeEventView::Pending);
                assert(events[i] == es[i - 1]);
            }
        }
    }
}

} // verus!
