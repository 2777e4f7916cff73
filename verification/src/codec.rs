//! The per-connection framing state machine.
//!
//! A byte stream carries events back to back, each one shaped as
//!
//! ```text
//! <topic-bytes> '\n'        -- UTF-8 text, delimiter required
//! <length>                  -- 4 bytes, big-endian unsigned 32-bit
//! <payload>                 -- exactly <length> bytes, opaque
//! ```
//!
//! [`step_model`] is the mathematical meaning of one decoding attempt on a
//! byte sequence, and [`stream_model`] the meaning of a whole closed stream.
//! The executable decoder is proved to agree with them exactly.

use vstd::prelude::*;
use vstd::slice::{slice_index_get, slice_subrange, slice_to_vec};
use vstd::arithmetic::div_mod::{
    lemma_div_denominator, lemma_div_pos_is_pos, lemma_fundamental_div_mod, lemma_mod_bound,
    lemma_multiply_divide_lt, lemma_small_mod,
};
use vstd::utf8::{
    char_is_scalar, decode_utf8, encode_scalar, encode_utf8, encode_utf8_decode_utf8,
    encode_utf8_valid_utf8, has_width_1_encoding, is_scalar, valid_utf8,
};

use crate::server::{Event, EventModel};

verus! {

/// Why a connection's framing loop stopped.  Every variant is
/// connection-fatal: once a step fails the byte stream is no longer
/// framing-aligned and cannot be resynchronized safely.
#[derive(Clone, Copy, Debug, PartialEq, Eq, Structural)]
pub enum FramingError {
    /// The topic line was not valid UTF-8.
    InvalidTopicEncoding,
    /// No newline delimiter was found within the working-buffer capacity.
    TopicTooLong,
    /// The stream ended before the 4 length bytes were complete.
    IncompleteLength,
    /// The stream ended before `length` payload bytes arrived.
    IncompletePayload,
}

/// The outcome of one decoding attempt, at the model level.
pub ghost enum StepModel {
    /// A complete frame sits at the front of the bytes; `used` is how many
    /// bytes it occupies.
    Frame { topic: Seq<char>, payload: Seq<u8>, used: int },
    /// The bytes so far are a proper prefix of a frame and the stream is
    /// still open.
    NeedMore,
    /// The stream ended cleanly on a frame boundary with no bytes pending.
    Closed,
    /// A framing step failed.
    Fail { err: FramingError },
}

/// The outcome of one decoding attempt, as returned by [`decode_step`].
pub enum StepResult {
    /// A complete frame was decoded from the front of the buffer; `used` is
    /// how many bytes it occupied.
    Frame { event: Event, used: usize },
    /// More bytes are needed before anything can be decided.
    NeedMore,
    /// The stream ended cleanly with no bytes pending.
    Closed,
    /// A framing step failed.
    Fail { err: FramingError },
}

/// True when `i` is the position of the first newline byte in `s`.
pub open spec fn is_first_newline(s: Seq<u8>, i: int) -> bool {
    &&& 0 <= i < s.len()
    &&& s[i] == 10u8
    &&& forall|j: int| 0 <= j < i ==> s[j] != 10u8
}

/// True when the first newline of `s` falls within the first `cap` bytes,
/// i.e. a topic line fits in a working buffer of capacity `cap`.
pub open spec fn newline_within(s: Seq<u8>, cap: int) -> bool {
    exists|i: int| i < cap && is_first_newline(s, i)
}

/// The position of the first newline byte in `s`.
pub open spec fn first_newline(s: Seq<u8>) -> int {
    choose|i: int| is_first_newline(s, i)
}

/// `s` with every trailing carriage-return byte removed.
pub open spec fn strip_cr(s: Seq<u8>) -> Seq<u8>
    decreases s.len(),
{
    if s.len() > 0 && s.last() == 13u8 {
        strip_cr(s.drop_last())
    } else {
        s
    }
}

/// The big-endian unsigned 32-bit integer held in 4 bytes.
pub open spec fn be32(b: Seq<u8>) -> int
    recommends
        b.len() == 4,
{
    b[0] * 0x1000000 + b[1] * 0x10000 + b[2] * 0x100 + b[3]
}

/// The 4-byte big-endian encoding of `n`.
pub open spec fn u32_be(n: int) -> Seq<u8>
    recommends
        0 <= n < 0x100000000,
{
    seq![
        ((n / 0x1000000) % 256) as u8,
        ((n / 0x10000) % 256) as u8,
        ((n / 0x100) % 256) as u8,
        (n % 256) as u8,
    ]
}

/// One whole frame on the wire: topic bytes, the newline delimiter, the
/// big-endian payload length, and the payload itself.
pub open spec fn frame_bytes(topic: Seq<char>, payload: Seq<u8>) -> Seq<u8> {
    encode_utf8(topic) + seq![10u8] + u32_be(payload.len() as int) + payload
}

/// What one decoding attempt on the pending bytes `s` yields.
///
/// `at_end` says whether the stream is known to be closed, so that a short
/// read can be told apart from one that may still complete; `cap` is the
/// working-buffer capacity for the topic line.  The topic is the bytes up
/// to the first newline, with trailing carriage returns stripped, decoded
/// as UTF-8.
pub open spec fn step_model(s: Seq<u8>, at_end: bool, cap: int) -> StepModel {
    if newline_within(s, cap) {
        let nl = first_newline(s);
        let line = strip_cr(s.subrange(0, nl));
        if !valid_utf8(line) {
            StepModel::Fail { err: FramingError::InvalidTopicEncoding }
        } else if s.len() < nl + 5 {
            if at_end {
                StepModel::Fail { err: FramingError::IncompleteLength }
            } else {
                StepModel::NeedMore
            }
        } else {
            let length = be32(s.subrange(nl + 1, nl + 5));
            if s.len() < nl + 5 + length {
                if at_end {
                    StepModel::Fail { err: FramingError::IncompletePayload }
                } else {
                    StepModel::NeedMore
                }
            } else {
                StepModel::Frame {
                    topic: decode_utf8(line),
                    payload: s.subrange(nl + 5, nl + 5 + length),
                    used: nl + 5 + length,
                }
            }
        }
    } else if s.len() >= cap {
        StepModel::Fail { err: FramingError::TopicTooLong }
    } else if !at_end {
        StepModel::NeedMore
    } else if s.len() == 0 {
        StepModel::Closed
    } else if !valid_utf8(strip_cr(s)) {
        StepModel::Fail { err: FramingError::InvalidTopicEncoding }
    } else {
        StepModel::Fail { err: FramingError::IncompleteLength }
    }
}

/// What decoding a whole closed stream yields: the events in arrival
/// order, then either a clean end (`err` is `None`) or the failure that
/// terminated the connection.
pub ghost struct StreamModel {
    pub events: Seq<EventModel>,
    pub err: Option<FramingError>,
}

/// The meaning of a complete byte stream, from connect to close: events
/// are decoded back to back until the bytes run out (clean close) or a
/// framing step fails.
pub open spec fn stream_model(s: Seq<u8>, cap: int) -> StreamModel
    decreases s.len(),
{
    match step_model(s, true, cap) {
        StepModel::Closed => StreamModel { events: Seq::empty(), err: None },
        StepModel::NeedMore => StreamModel { events: Seq::empty(), err: None },
        StepModel::Fail { err } => StreamModel { events: Seq::empty(), err: Some(err) },
        StepModel::Frame { topic, payload, used } => {
            if 1 <= used <= s.len() {
                let rest = stream_model(s.subrange(used, s.len() as int), cap);
                StreamModel {
                    events: seq![EventModel { topic, payload }] + rest.events,
                    err: rest.err,
                }
            } else {
                StreamModel { events: Seq::empty(), err: None }
            }
        },
    }
}

/// On a closed stream a decoding attempt is always decisive, and a decoded
/// frame occupies at least its five delimiter and length bytes and at most
/// the whole buffer.
pub proof fn lemma_step_model_decisive(s: Seq<u8>, at_end: bool, cap: int)
    ensures
        step_model(s, at_end, cap) matches StepModel::Frame { used, .. } ==> 5 <= used
            <= s.len(),
        at_end ==> !(step_model(s, at_end, cap) is NeedMore),
{
    if newline_within(s, cap) {
        assert(is_first_newline(s, first_newline(s)));
    }
}

/// True when the executable outcome `r` means exactly the model outcome `m`.
pub open spec fn step_matches(r: StepResult, m: StepModel) -> bool {
    match r {
        StepResult::Frame { event, used } => {
            &&& m matches StepModel::Frame { topic, payload, used: u }
            &&& event@.topic == topic
            &&& event@.payload == payload
            &&& used == u
        },
        StepResult::NeedMore => m is NeedMore,
        StepResult::Closed => m is Closed,
        StepResult::Fail { err } => m matches StepModel::Fail { err: e } && err == e,
    }
}

/// The position of the first newline of `s` is whatever single index
/// satisfies [`is_first_newline`].
pub proof fn lemma_first_newline_unique(s: Seq<u8>, i: int, j: int)
    requires
        is_first_newline(s, i),
        is_first_newline(s, j),
    ensures
        i == j,
{
    if i < j {
        assert(s[i] != 10u8);
    }
    if j < i {
        assert(s[j] != 10u8);
    }
}

/// Finds the first newline byte of `buf`, provided it falls within the
/// first `cap` bytes.
fn find_newline(buf: &[u8], cap: usize) -> (r: Option<usize>)
    ensures
        match r {
            Some(i) => i < cap && is_first_newline(buf@, i as int),
            None => !newline_within(buf@, cap as int),
        },
{
    let n = buf.len();
    let mut i: usize = 0;
    while i < n && i < cap
        invariant
            i <= n,
            n == buf@.len(),
            forall|j: int| 0 <= j < i ==> buf@[j] != 10u8,
        decreases n - i,
    {
        if *slice_index_get(buf, i) == 10u8 {
            return Some(i);
        }
        i += 1;
    }
    proof {
        assert forall|k: int| !(k < cap as int && is_first_newline(buf@, k)) by {
            if 0 <= k < cap as int && k < buf@.len() {
                assert(buf@[k] != 10u8);
            }
        }
    }
    None
}

/// Returns the end of the topic line once trailing carriage returns are
/// stripped: the prefix of `buf` of that length is `strip_cr` of the prefix
/// of length `nl`.
fn line_end(buf: &[u8], nl: usize) -> (r: usize)
    requires
        nl <= buf@.len(),
    ensures
        r <= nl,
        buf@.subrange(0, r as int) == strip_cr(buf@.subrange(0, nl as int)),
{
    let mut e = nl;
    while e > 0 && *slice_index_get(buf, e - 1) == 13u8
        invariant
            e <= nl,
            nl <= buf@.len(),
            strip_cr(buf@.subrange(0, e as int)) == strip_cr(buf@.subrange(0, nl as int)),
        decreases e,
    {
        proof {
            let pre = buf@.subrange(0, e as int);
            assert(pre.last() == 13u8);
            assert(pre.drop_last() =~= buf@.subrange(0, e - 1));
        }
        e -= 1;
    }
    proof {
        let pre = buf@.subrange(0, e as int);
        assert(pre.len() == 0 || pre.last() != 13u8);
        assert(strip_cr(pre) == pre);
    }
    e
}

/// Relies on `std::str::from_utf8` (with `str::to_owned` for the copy): the
/// conversion succeeds exactly on valid UTF-8 input, and then yields the
/// string whose characters are the UTF-8 decoding of those bytes.
#[verifier::external_body]
fn utf8_to_string(bytes: &[u8]) -> (r: Option<String>)
    ensures
        r is Some <==> valid_utf8(bytes@),
        r matches Some(t) ==> t@ == decode_utf8(bytes@),
{
    match std::str::from_utf8(bytes) {
        Ok(s) => Some(s.to_owned()),
        Err(_) => None,
    }
}

/// Reads a big-endian unsigned 32-bit integer out of 4 bytes.
fn read_be32(b0: u8, b1: u8, b2: u8, b3: u8) -> (r: u32)
    ensures
        r as int == be32(seq![b0, b1, b2, b3]),
{
    (b0 as u32) * 0x1000000 + (b1 as u32) * 0x10000 + (b2 as u32) * 0x100 + (b3 as u32)
}

/// One decoding attempt on the pending bytes of a connection.
///
/// `buf` holds every byte received and not yet consumed, `at_end` says
/// whether the peer has closed the stream, and `cap` is the working-buffer
/// capacity for the topic line.  The result is exactly what the model
/// [`step_model`] says it must be; on `Frame`, the first `used` bytes of
/// `buf` have been consumed and the caller continues after them.
pub fn decode_step(buf: &[u8], at_end: bool, cap: usize) -> (r: StepResult)
    ensures
        step_matches(r, step_model(buf@, at_end, cap as int)),
{
    let ghost s = buf@;
    match find_newline(buf, cap) {
        None => {
            if buf.len() >= cap {
                StepResult::Fail { err: FramingError::TopicTooLong }
            } else if !at_end {
                StepResult::NeedMore
            } else if buf.len() == 0 {
                StepResult::Closed
            } else {
                proof {
                    assert(s.subrange(0, s.len() as int) =~= s);
                }
                let e = line_end(buf, buf.len());
                match utf8_to_string(slice_subrange(buf, 0, e)) {
                    None => StepResult::Fail { err: FramingError::InvalidTopicEncoding },
                    Some(_) => StepResult::Fail { err: FramingError::IncompleteLength },
                }
            }
        },
        Some(nl) => {
            proof {
                lemma_first_newline_unique(s, nl as int, first_newline(s));
                assert(newline_within(s, cap as int));
            }
            let e = line_end(buf, nl);
            match utf8_to_string(slice_subrange(buf, 0, e)) {
                None => StepResult::Fail { err: FramingError::InvalidTopicEncoding },
                Some(topic) => {
                    // The 4 length bytes sit right after the newline.
                    if buf.len() - (nl + 1) < 4 {
                        if at_end {
                            StepResult::Fail { err: FramingError::IncompleteLength }
                        } else {
                            StepResult::NeedMore
                        }
                    } else {
                        let length = read_be32(
                            *slice_index_get(buf, nl + 1),
                            *slice_index_get(buf, nl + 2),
                            *slice_index_get(buf, nl + 3),
                            *slice_index_get(buf, nl + 4),
                        );
                        proof {
                            assert(seq![s[nl + 1], s[nl + 2], s[nl + 3], s[nl + 4]] =~= s.subrange(
                                nl + 1,
                                nl + 5,
                            ));
                        }
                        let body = nl + 5;
                        if buf.len() - body < length as usize {
                            if at_end {
                                StepResult::Fail { err: FramingError::IncompletePayload }
                            } else {
                                StepResult::NeedMore
                            }
                        } else {
                            let used = body + length as usize;
                            let payload = slice_to_vec(slice_subrange(buf, body, used));
                            StepResult::Frame { event: Event::assemble(topic, payload), used }
                        }
                    }
                },
            }
        },
    }
}

/// Decodes a complete closed stream: every event that arrived, in order,
/// and then either a clean close or the failure that ended the connection.
pub fn decode_stream(buf: &[u8], cap: usize) -> (r: (Vec<Event>, Option<FramingError>))
    ensures
        r.0@.map_values(|e: Event| e@) == stream_model(buf@, cap as int).events,
        r.1 == stream_model(buf@, cap as int).err,
{
    let ghost whole = stream_model(buf@, cap as int);
    let mut events: Vec<Event> = Vec::new();
    let mut pos: usize = 0;
    proof {
        assert(buf@.subrange(0, buf@.len() as int) =~= buf@);
    }
    loop
        invariant
            pos <= buf@.len(),
            whole == stream_model(buf@, cap as int),
            whole.events =~~= events@.map_values(|e: Event| e@) + stream_model(
                buf@.subrange(pos as int, buf@.len() as int),
                cap as int,
            ).events,
            whole.err == stream_model(
                buf@.subrange(pos as int, buf@.len() as int),
                cap as int,
            ).err,
        decreases buf@.len() - pos,
    {
        let ghost tail_bytes = buf@.subrange(pos as int, buf@.len() as int);
        let tail = slice_subrange(buf, pos, buf.len());
        let step = decode_step(tail, true, cap);
        proof {
            lemma_step_model_decisive(tail_bytes, true, cap as int);
        }
        match step {
            StepResult::Closed => {
                return (events, None);
            },
            StepResult::Fail { err } => {
                return (events, Some(err));
            },
            StepResult::NeedMore => {
                proof {
                    assert(false);
                }
                return (events, None);
            },
            StepResult::Frame { event, used } => {
                let ghost before = events@;
                events.push(event);
                proof {
                    let f = |e: Event| e@;
                    assert(events@.map_values(f) =~= before.map_values(f).push(event@));
                    let next_bytes = buf@.subrange(pos + used, buf@.len() as int);
                    assert(tail_bytes.subrange(used as int, tail_bytes.len() as int)
                        =~= next_bytes);
                    assert(stream_model(tail_bytes, cap as int).events == seq![event@]
                        + stream_model(next_bytes, cap as int).events);
                    assert(whole.events =~~= events@.map_values(f) + stream_model(
                        next_bytes,
                        cap as int,
                    ).events);
                }
                pos = pos + used;
            },
        }
    }
}

/// Encodes one frame: the topic's UTF-8 bytes, the newline delimiter, the
/// payload length as 4 big-endian bytes, then the payload itself.
pub fn encode_frame(topic: &str, payload: &[u8]) -> (r: Vec<u8>)
    requires
        payload@.len() < 0x100000000,
    ensures
        r@ == frame_bytes(topic@, payload@),
{
    let mut out: Vec<u8> = slice_to_vec(topic.as_bytes());
    out.push(10u8);
    let length: u32 = payload.len() as u32;
    out.push(((length / 0x1000000) % 256) as u8);
    out.push(((length / 0x10000) % 256) as u8);
    out.push(((length / 0x100) % 256) as u8);
    out.push((length % 256) as u8);
    out.extend_from_slice(payload);
    proof {
        assert(out@ =~= frame_bytes(topic@, payload@));
    }
    out
}

/// The 4 big-endian bytes of `n` read back as the same integer.
pub proof fn lemma_be32_of_u32_be(n: int)
    requires
        0 <= n < 0x100000000,
    ensures
        u32_be(n).len() == 4,
        be32(u32_be(n)) == n,
{
    lemma_fundamental_div_mod(n, 256);
    lemma_fundamental_div_mod(n / 256, 256);
    lemma_fundamental_div_mod(n / 0x10000, 256);
    lemma_div_denominator(n, 256, 256);
    lemma_div_denominator(n, 0x10000, 256);
    lemma_div_pos_is_pos(n, 256);
    lemma_div_pos_is_pos(n, 0x10000);
    lemma_div_pos_is_pos(n, 0x1000000);
    lemma_multiply_divide_lt(n, 0x1000000, 256);
    lemma_small_mod((n / 0x1000000) as nat, 256);
    lemma_mod_bound(n, 256);
    lemma_mod_bound(n / 256, 256);
    lemma_mod_bound(n / 0x10000, 256);
    lemma_mod_bound(n / 0x1000000, 256);
    assert((n / 256) / 256 == n / 0x10000);
    assert((n / 0x10000) / 256 == n / 0x1000000);
    assert(n == 0x1000000 * (n / 0x1000000) + 0x10000 * ((n / 0x10000) % 256) + 0x100 * ((n
        / 0x100) % 256) + n % 256);
}

/// Every byte of a scalar's UTF-8 encoding is either the scalar itself
/// (one-byte ASCII encodings) or at least `0x80` (leading and continuation
/// bytes of the longer encodings).
proof fn lemma_encode_scalar_bytes(c: u32)
    requires
        is_scalar(c),
    ensures
        has_width_1_encoding(c) ==> encode_scalar(c) =~= seq![c as u8],
        !has_width_1_encoding(c) ==> forall|i: int|
            0 <= i < encode_scalar(c).len() ==> encode_scalar(c)[i] >= 0x80,
{
    assert(forall|x: u8| (0x80u8 | x) >= 0x80) by (bit_vector);
    assert(forall|x: u8| (0xC0u8 | x) >= 0x80) by (bit_vector);
    assert(forall|x: u8| (0xE0u8 | x) >= 0x80) by (bit_vector);
    assert(forall|x: u8| (0xF0u8 | x) >= 0x80) by (bit_vector);
    if has_width_1_encoding(c) {
        assert((c & 0x7F) as u8 == c as u8) by (bit_vector)
            requires
                c <= 0x7F,
        ;
    }
}

/// A topic with no newline character encodes to bytes with no newline
/// delimiter in them.
proof fn lemma_encode_utf8_newline_free(chars: Seq<char>)
    requires
        !chars.contains('\n'),
    ensures
        !encode_utf8(chars).contains(10u8),
    decreases chars.len(),
{
    if chars.len() > 0 {
        let c = chars[0] as u32;
        char_is_scalar(chars[0]);
        lemma_encode_scalar_bytes(c);
        assert(chars[0] != '\n');
        assert(c != 10) by {
            if c == 10 {
                vstd::utf8::char_u32_cast(chars[0], c);
                assert(chars[0] == (10u32 as char));
                assert((10u32 as char) == '\n');
            }
        }
        if has_width_1_encoding(c) {
            assert(c as u8 != 10) by (bit_vector)
                requires
                    c <= 0x7F && c != 10,
            ;
        }
        let rest = chars.drop_first();
        assert(!rest.contains('\n')) by {
            if rest.contains('\n') {
                let i = choose|i: int| 0 <= i < rest.len() && rest[i] == '\n';
                assert(chars[i + 1] == '\n');
            }
        }
        lemma_encode_utf8_newline_free(rest);
        let head = encode_scalar(c);
        let tail = encode_utf8(rest);
        assert forall|i: int| 0 <= i < encode_utf8(chars).len() implies encode_utf8(chars)[i]
            != 10u8 by {
            if i < head.len() {
                assert(encode_utf8(chars)[i] == head[i]);
            } else {
                assert(encode_utf8(chars)[i] == tail[i - head.len()]);
                assert(!tail.contains(10u8));
            }
        }
    }
}

/// A nonempty topic that does not end in a carriage return encodes to a
/// nonempty byte sequence that does not end in one either.
proof fn lemma_encode_utf8_last_byte(chars: Seq<char>)
    requires
        chars.len() > 0,
        chars.last() != '\r',
    ensures
        encode_utf8(chars).len() > 0,
        encode_utf8(chars).last() != 13u8,
    decreases chars.len(),
{
    let c = chars[0] as u32;
    char_is_scalar(chars[0]);
    lemma_encode_scalar_bytes(c);
    let head = encode_scalar(c);
    let tail = encode_utf8(chars.drop_first());
    assert(head.len() > 0);
    if chars.len() == 1 {
        assert(chars.drop_first() =~= Seq::<char>::empty());
        assert(tail =~= Seq::<u8>::empty());
        assert(encode_utf8(chars) =~= head);
        assert(chars[0] == chars.last());
        assert(c != 13) by {
            if c == 13 {
                vstd::utf8::char_u32_cast(chars[0], c);
                assert(chars[0] == (13u32 as char));
                assert((13u32 as char) == '\r');
            }
        }
        if has_width_1_encoding(c) {
            assert(c as u8 != 13) by (bit_vector)
                requires
                    c <= 0x7F && c != 13,
            ;
        } else {
            assert(head.last() >= 0x80);
        }
    } else {
        let rest = chars.drop_first();
        assert(rest.last() == chars.last());
        lemma_encode_utf8_last_byte(rest);
        assert(encode_utf8(chars).last() == tail.last());
    }
}

/// A well-formed topic line at the front of a stream is always read back
/// as itself: the first newline sits right after the topic's bytes, and
/// the line before it, with trailing carriage returns stripped, decodes to
/// that same topic.
proof fn lemma_topic_prefix(topic: Seq<char>, tail: Seq<u8>, cap: int)
    requires
        !topic.contains('\n'),
        topic.len() == 0 || topic.last() != '\r',
        encode_utf8(topic).len() < cap,
    ensures
        ({
            let s = encode_utf8(topic) + seq![10u8] + tail;
            let n = encode_utf8(topic).len() as int;
            &&& is_first_newline(s, n)
            &&& first_newline(s) == n
            &&& newline_within(s, cap)
            &&& strip_cr(s.subrange(0, n)) == encode_utf8(topic)
            &&& valid_utf8(strip_cr(s.subrange(0, n)))
            &&& decode_utf8(strip_cr(s.subrange(0, n))) == topic
            &&& s.len() == n + 1 + tail.len()
        }),
{
    let enc = encode_utf8(topic);
    let s = enc + seq![10u8] + tail;
    let n = enc.len() as int;
    lemma_encode_utf8_newline_free(topic);
    assert(s[n] == 10u8);
    assert forall|j: int| 0 <= j < n implies s[j] != 10u8 by {
        assert(s[j] == enc[j]);
        assert(!enc.contains(10u8));
    }
    assert(is_first_newline(s, n));
    assert(newline_within(s, cap));
    lemma_first_newline_unique(s, n, first_newline(s));
    assert(s.subrange(0, n) =~= enc);
    if topic.len() > 0 {
        lemma_encode_utf8_last_byte(topic);
    }
    assert(strip_cr(enc) == enc);
    encode_utf8_valid_utf8(topic);
    encode_utf8_decode_utf8(topic);
}

/// ROUND-TRIP LAW, general form: a whole well-formed frame at the front
/// of a stream decodes to its own topic and payload, whatever bytes
/// follow it and whether or not the stream has closed.
pub proof fn lemma_frame_decodes(
    topic: Seq<char>,
    payload: Seq<u8>,
    rest: Seq<u8>,
    at_end: bool,
    cap: int,
)
    requires
        !topic.contains('\n'),
        topic.len() == 0 || topic.last() != '\r',
        encode_utf8(topic).len() < cap,
        payload.len() < 0x100000000,
    ensures
        step_model(frame_bytes(topic, payload) + rest, at_end, cap) == (StepModel::Frame {
            topic,
            payload,
            used: frame_bytes(topic, payload).len() as int,
        }),
{
    let enc = encode_utf8(topic);
    let lenb = u32_be(payload.len() as int);
    let f = frame_bytes(topic, payload);
    let s = f + rest;
    let n = enc.len() as int;
    lemma_be32_of_u32_be(payload.len() as int);
    assert(s =~= enc + seq![10u8] + (lenb + payload + rest));
    lemma_topic_prefix(topic, lenb + payload + rest, cap);
    assert(s.subrange(n + 1, n + 5) =~= lenb);
    assert(s.len() >= n + 5 + payload.len());
    assert(s.subrange(n + 5, n + 5 + payload.len()) =~= payload);
    assert(f.len() == n + 5 + payload.len());
}

/// ROUND-TRIP LAW: for every topic with no newline (and no trailing
/// carriage return, which the decoder strips) and every payload, encoding
/// one frame and decoding the stream back yields exactly that one event,
/// with the identical topic and payload, and a clean close.
pub proof fn lemma_round_trip(topic: Seq<char>, payload: Seq<u8>, cap: int)
    requires
        !topic.contains('\n'),
        topic.len() == 0 || topic.last() != '\r',
        encode_utf8(topic).len() < cap,
        payload.len() < 0x100000000,
    ensures
        stream_model(frame_bytes(topic, payload), cap) == (StreamModel {
            events: seq![EventModel { topic, payload }],
            err: None,
        }),
{
    let f = frame_bytes(topic, payload);
    lemma_frame_decodes(topic, payload, Seq::empty(), true, cap);
    assert(f + Seq::<u8>::empty() =~= f);
    assert(f.subrange(f.len() as int, f.len() as int) =~= Seq::<u8>::empty());
    assert(!newline_within(Seq::<u8>::empty(), cap));
    assert(step_model(Seq::<u8>::empty(), true, cap) is Closed);
    assert(stream_model(Seq::<u8>::empty(), cap) == (StreamModel {
        events: Seq::<EventModel>::empty(),
        err: None::<FramingError>,
    }));
    assert(stream_model(f, cap).err is None);
    assert(stream_model(f, cap).events =~~= seq![EventModel { topic, payload }]);
}

/// PIPELINING LAW: two well-formed frames concatenated back to back with
/// no gap decode to exactly their two events, in arrival order, and a
/// clean close.
pub proof fn lemma_pipelining(
    topic1: Seq<char>,
    payload1: Seq<u8>,
    topic2: Seq<char>,
    payload2: Seq<u8>,
    cap: int,
)
    requires
        !topic1.contains('\n'),
        topic1.len() == 0 || topic1.last() != '\r',
        encode_utf8(topic1).len() < cap,
        payload1.len() < 0x100000000,
        !topic2.contains('\n'),
        topic2.len() == 0 || topic2.last() != '\r',
        encode_utf8(topic2).len() < cap,
        payload2.len() < 0x100000000,
    ensures
        stream_model(frame_bytes(topic1, payload1) + frame_bytes(topic2, payload2), cap)
            == (StreamModel {
            events: seq![
                EventModel { topic: topic1, payload: payload1 },
                EventModel { topic: topic2, payload: payload2 },
            ],
            err: None,
        }),
{
    let f1 = frame_bytes(topic1, payload1);
    let f2 = frame_bytes(topic2, payload2);
    let s = f1 + f2;
    lemma_frame_decodes(topic1, payload1, f2, true, cap);
    assert(s.subrange(f1.len() as int, s.len() as int) =~= f2);
    lemma_round_trip(topic2, payload2, cap);
    assert(stream_model(s, cap).events =~~= seq![
        EventModel { topic: topic1, payload: payload1 },
        EventModel { topic: topic2, payload: payload2 },
    ]);
}

/// True when a topic can travel as one topic line within working-buffer
/// capacity `cap`: it holds no newline, does not end in a carriage return
/// (which the decoder would strip), and its UTF-8 bytes leave room for the
/// delimiter.
pub open spec fn sendable_topic(topic: Seq<char>, cap: int) -> bool {
    &&& !topic.contains('\n')
    &&& topic.len() == 0 || topic.last() != '\r'
    &&& encode_utf8(topic).len() < cap
}

/// The concatenation of one whole frame per event, back to back with no
/// gap between them.
pub open spec fn frames_bytes(events: Seq<EventModel>) -> Seq<u8>
    decreases events.len(),
{
    if events.len() == 0 {
        Seq::empty()
    } else {
        frame_bytes(events[0].topic, events[0].payload) + frames_bytes(events.drop_first())
    }
}

/// ORDERED DELIVERY LAW: any number of well-formed frames pipelined back
/// to back on one connection decode to exactly their events, strictly in
/// arrival order, and a clean close.
#[verifier::rlimit(50)]
pub proof fn lemma_frames_in_order(events: Seq<EventModel>, cap: int)
    requires
        cap >= 1,
        forall|k: int| 0 <= k < events.len() ==> sendable_topic(#[trigger] events[k].topic, cap),
        forall|k: int| 0 <= k < events.len() ==> (#[trigger] events[k].payload).len()
            < 0x100000000,
    ensures
        stream_model(frames_bytes(events), cap) == (StreamModel { events, err: None }),
    decreases events.len(),
{
    if events.len() == 0 {
        assert(events =~= Seq::<EventModel>::empty());
        assert(!newline_within(Seq::<u8>::empty(), cap));
        assert(step_model(Seq::<u8>::empty(), true, cap) is Closed);
    } else {
        let head = events[0];
        let rest = events.drop_first();
        let f = frame_bytes(head.topic, head.payload);
        let tail = frames_bytes(rest);
        let s = frames_bytes(events);
        lemma_frame_decodes(head.topic, head.payload, tail, true, cap);
        assert(step_model(s, true, cap) == (StepModel::Frame {
            topic: head.topic,
            payload: head.payload,
            used: f.len() as int,
        }));
        assert forall|k: int|
            0 <= k < rest.len() implies sendable_topic(#[trigger] rest[k].topic, cap) && (
        rest[k].payload).len() < 0x100000000 by {
            assert(rest[k] == events[k + 1]);
        }
        lemma_frames_in_order(rest, cap);
        assert(s.subrange(f.len() as int, s.len() as int) =~= tail);
        assert(stream_model(s, cap).events == seq![
            EventModel { topic: head.topic, payload: head.payload },
        ] + rest);
        assert(EventModel { topic: head.topic, payload: head.payload } == head);
        assert(seq![head] + rest =~= events);
        assert(stream_model(s, cap).err is None);
    }
}

/// SHORT LENGTH LAW: if the stream closes after a topic line but before
/// the 4 length bytes are complete, the reader fails with
/// `IncompleteLength` and emits no event.
pub proof fn lemma_incomplete_length(topic: Seq<char>, partial: Seq<u8>, cap: int)
    requires
        !topic.contains('\n'),
        topic.len() == 0 || topic.last() != '\r',
        encode_utf8(topic).len() < cap,
        partial.len() < 4,
    ensures
        stream_model(encode_utf8(topic) + seq![10u8] + partial, cap) == (StreamModel {
            events: Seq::empty(),
            err: Some(FramingError::IncompleteLength),
        }),
{
    lemma_topic_prefix(topic, partial, cap);
}

/// SHORT PAYLOAD LAW: if the stream closes after the length prefix but
/// before `length` payload bytes have arrived, the reader fails with
/// `IncompletePayload` and emits no event.
pub proof fn lemma_incomplete_payload(
    topic: Seq<char>,
    length: int,
    partial: Seq<u8>,
    cap: int,
)
    requires
        !topic.contains('\n'),
        topic.len() == 0 || topic.last() != '\r',
        encode_utf8(topic).len() < cap,
        0 <= length < 0x100000000,
        partial.len() < length,
    ensures
        stream_model(encode_utf8(topic) + seq![10u8] + u32_be(length) + partial, cap)
            == (StreamModel {
            events: Seq::empty(),
            err: Some(FramingError::IncompletePayload),
        }),
{
    let enc = encode_utf8(topic);
    let s = enc + seq![10u8] + u32_be(length) + partial;
    let n = enc.len() as int;
    lemma_be32_of_u32_be(length);
    assert(s =~= enc + seq![10u8] + (u32_be(length) + partial));
    lemma_topic_prefix(topic, u32_be(length) + partial, cap);
    assert(s.subrange(n + 1, n + 5) =~= u32_be(length));
    assert(s.len() < n + 5 + length);
}

/// OVERLONG TOPIC LAW: a stream whose first `cap` bytes hold no newline
/// delimiter fails with `TopicTooLong` rather than hanging or silently
/// truncating, and emits no event.
pub proof fn lemma_topic_too_long(s: Seq<u8>, cap: int)
    requires
        s.len() >= cap,
        forall|i: int| 0 <= i < cap ==> s[i] != 10u8,
    ensures
        stream_model(s, cap) == (StreamModel {
            events: Seq::empty(),
            err: Some(FramingError::TopicTooLong),
        }),
{
    assert forall|i: int| !(i < cap && is_first_newline(s, i)) by {
        if 0 <= i < cap {
            assert(s[i] != 10u8);
        }
    }
}

/// The per-connection framing state machine.
///
/// A `Reader` owns one connection's working buffer, with no state shared
/// across connections.  The caller feeds it the raw bytes read from the
/// socket and polls it for events: each poll decides exactly what the
/// model [`step_model`] says about the bytes still pending, and a decoded
/// frame's bytes are consumed so that the next poll starts right after
/// them, never on stale buffer contents.
pub struct Reader {
    buf: Vec<u8>,
    pos: usize,
    cap: usize,
}

impl Reader {
    /// The bytes received on this connection and not yet consumed.
    pub closed spec fn pending(&self) -> Seq<u8> {
        self.buf@.subrange(self.pos as int, self.buf@.len() as int)
    }

    /// The working-buffer capacity a topic line must fit in.
    pub closed spec fn capacity(&self) -> int {
        self.cap as int
    }

    /// Internal validity: the consumed prefix never runs past the buffer.
    /// Every constructor establishes it and every method preserves it.
    pub closed spec fn wf(&self) -> bool {
        self.pos <= self.buf@.len()
    }

    /// A fresh reader for one connection, with working-buffer capacity
    /// `cap` and nothing pending.
    pub fn new(cap: usize) -> (r: Reader)
        ensures
            r.wf(),
            r.pending() == Seq::<u8>::empty(),
            r.capacity() == cap as int,
    {
        let r = Reader { buf: Vec::new(), pos: 0, cap };
        proof {
            assert(r.pending() =~= Seq::<u8>::empty());
        }
        r
    }

    /// Appends one chunk of bytes read from the connection's socket.
    pub fn feed(&mut self, chunk: &[u8])
        requires
            old(self).wf(),
        ensures
            final(self).wf(),
            final(self).pending() == old(self).pending() + chunk@,
            final(self).capacity() == old(self).capacity(),
    {
        self.buf.extend_from_slice(chunk);
        proof {
            assert(self.pending() =~= old(self).pending() + chunk@);
        }
    }

    /// One decoding attempt on the pending bytes; `at_end` says whether
    /// the peer has closed the stream.  On `Frame` the frame's bytes are
    /// consumed; on any other outcome the pending bytes stay as they are.
    pub fn poll(&mut self, at_end: bool) -> (r: StepResult)
        requires
            old(self).wf(),
        ensures
            final(self).wf(),
            final(self).capacity() == old(self).capacity(),
            step_matches(r, step_model(old(self).pending(), at_end, old(self).capacity())),
            match r {
                StepResult::Frame { used, .. } => final(self).pending() == old(
                    self,
                ).pending().skip(used as int),
                _ => final(self).pending() == old(self).pending(),
            },
    {
        proof {
            lemma_step_model_decisive(self.pending(), at_end, self.cap as int);
        }
        let tail = slice_subrange(self.buf.as_slice(), self.pos, self.buf.len());
        let step = decode_step(tail, at_end, self.cap);
        match step {
            StepResult::Frame { event, used } => {
                self.pos = self.pos + used;
                proof {
                    assert(self.pending() =~= old(self).pending().skip(used as int));
                }
                if self.pos == self.buf.len() {
                    // Nothing is pending: reuse the buffer from its start
                    // rather than letting consumed bytes pile up.
                    self.buf.clear();
                    self.pos = 0;
                    proof {
                        assert(self.pending() =~= old(self).pending().skip(used as int));
                    }
                }
                StepResult::Frame { event, used }
            },
            other => {
                proof {
                    assert(self.pending() =~= old(self).pending());
                }
                other
            },
        }
    }
}

} // verus!

