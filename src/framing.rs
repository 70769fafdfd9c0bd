//! Packet envelopes: a length prefix, then the packet id and payload, optionally in the
//! compressed form whose inner data may be zlib-deflated.
use vstd::prelude::*;
use crate::codec::{push_all, CodecError};
use crate::compress::{zlib_compress, zlib_compressed, zlib_decompress, zlib_inflated};
use crate::varint::{lemma_varint_round_trip, varint_read, varint_wire, VarInt};
use crate::wire::copy_range;

verus! {

/// One packet taken out of an envelope.
#[derive(Debug, PartialEq, Eq)]
pub struct Frame {
    pub id: i32,
    pub payload: Vec<u8>,
}

/// Why no frame came out of the bytes.
#[derive(Debug, Clone, Copy, PartialEq, Eq, Structural)]
pub enum FrameError {
    /// The envelope is not complete yet: wait for more bytes.
    NeedMore,
    /// The envelope is complete but malformed.
    Malformed(CodecError),
}

/// The packet id followed by the payload: what a length prefix counts.
pub open spec fn packet_data(id: i32, payload: Seq<u8>) -> Seq<u8> {
    varint_wire(id) + payload
}

/// The inner part of a compressed-form envelope: `data_length` 0 and the data as it is
/// below the threshold, else the data's length and its zlib stream.
pub open spec fn compressed_body(data: Seq<u8>, threshold: u32) -> Seq<u8> {
    if data.len() < threshold {
        varint_wire(0) + data
    } else {
        varint_wire(data.len() as i32) + zlib_compressed(data)
    }
}

/// The bytes of an outbound envelope. Without compression: the length of id and payload,
/// then both. With a threshold: the length of the body, then `compressed_body`.
pub open spec fn envelope(id: i32, payload: Seq<u8>, compression: Option<u32>) -> Seq<u8> {
    match compression {
        None => varint_wire(packet_data(id, payload).len() as i32) + packet_data(id, payload),
        Some(t) => varint_wire(compressed_body(packet_data(id, payload), t).len() as i32)
            + compressed_body(packet_data(id, payload), t),
    }
}

/// Whether the packet is deflated under `compression` and its zlib stream is too long for
/// the envelope's length prefix.
pub open spec fn deflated_too_long(id: i32, payload: Seq<u8>, compression: Option<u32>) -> bool {
    compression matches Some(t) && packet_data(id, payload).len() >= t && zlib_compressed(
        packet_data(id, payload),
    ).len() + 10 > i32::MAX
}

/// Writes one envelope for packet `id` with `payload`. Every envelope written frames back
/// (`frames_back`); `None` where the deflated stream would be too long for the prefix.
pub fn write_envelope(id: i32, payload: &[u8], compression: Option<u32>) -> (r: Option<Vec<u8>>)
    requires
        payload@.len() + 10 <= i32::MAX,
    ensures
        r is None <==> deflated_too_long(id, payload@, compression),
        r matches Some(b) ==> b@ == envelope(id, payload@, compression) && frames_back(id, payload@, compression),
{
    let mut data: Vec<u8> = Vec::new();
    VarInt(id).encode(&mut data);
    push_all(&mut data, payload);
    let mut out: Vec<u8> = Vec::new();
    match compression {
        None => {
            VarInt(#[verifier::truncate] (data.len() as i32)).encode(&mut out);
            push_all(&mut out, data.as_slice());
        },
        Some(t) => {
            let mut body: Vec<u8> = Vec::new();
            if data.len() < t as usize {
                VarInt(0).encode(&mut body);
                push_all(&mut body, data.as_slice());
            } else {
                let packed = zlib_compress(data.as_slice());
                if packed.len() > 0x7FFF_FFF5 {
                    return None;
                }
                VarInt(#[verifier::truncate] (data.len() as i32)).encode(&mut body);
                push_all(&mut body, packed.as_slice());
            }
            VarInt(#[verifier::truncate] (body.len() as i32)).encode(&mut out);
            push_all(&mut out, body.as_slice());
        },
    }
    Some(out)
}

/// Whether an outbound packet goes out in the compressed form: whenever a threshold is set,
/// except for the packet that announces it (id 3 while logging in), which is always plain.
pub open spec fn uses_compressed_form(compression: Option<u32>, is_set_compression: bool) -> bool {
    compression is Some && !is_set_compression
}

/// Writes an outbound envelope on a connection whose threshold is `compression`.
/// `is_set_compression` marks the packet that announces the threshold. The envelope frames
/// back; in particular a deflated body inflates to the packet's id and payload.
pub fn write_outbound(id: i32, payload: &[u8], compression: Option<u32>, is_set_compression: bool) -> (r: Option<Vec<u8>>)
    requires
        payload@.len() + 10 <= i32::MAX,
    ensures
        uses_compressed_form(compression, is_set_compression) ==> (r is None <==> deflated_too_long(
            id,
            payload@,
            compression,
        )) && (r matches Some(b) ==> b@ == envelope(id, payload@, compression) && frames_back(
            id,
            payload@,
            compression,
        )),
        !uses_compressed_form(compression, is_set_compression) ==> (r matches Some(b) && b@ == envelope(
            id,
            payload@,
            None,
        ) && frames_back(id, payload@, None)),
{
    if is_set_compression {
        write_envelope(id, payload, None)
    } else {
        write_envelope(id, payload, compression)
    }
}

/// What framing one envelope at the front of `s` gives: the frame's id, payload and the
/// envelope's length, `NeedMore` where it is not all there, or why it is malformed.
pub open spec fn frame_spec(s: Seq<u8>, compression: Option<u32>) -> Result<(i32, Seq<u8>, nat), FrameError> {
    match varint_read(s) {
        Err(CodecError::Truncated) => Err(FrameError::NeedMore),
        Err(e) => Err(FrameError::Malformed(e)),
        Ok((len, h)) => if len < 0 {
            Err(FrameError::Malformed(CodecError::NegativeLength))
        } else if s.len() < h + len {
            Err(FrameError::NeedMore)
        } else {
            let body = s.subrange(h as int, h + len);
            match inner_data(body, compression) {
                Err(e) => Err(FrameError::Malformed(e)),
                Ok(inner) => match varint_read(inner) {
                    Err(e) => Err(FrameError::Malformed(e)),
                    Ok((id, k)) => Ok((id, inner.subrange(k as int, inner.len() as int), h + len as nat)),
                },
            }
        },
    }
}

/// The id-and-payload bytes inside an envelope's body.
pub open spec fn inner_data(body: Seq<u8>, compression: Option<u32>) -> Result<Seq<u8>, CodecError> {
    match compression {
        None => Ok(body),
        Some(_) => match varint_read(body) {
            Err(e) => Err(e),
            Ok((dl, k)) => if dl == 0 {
                Ok(body.subrange(k as int, body.len() as int))
            } else {
                match zlib_inflated(body.subrange(k as int, body.len() as int)) {
                    None => Err(CodecError::InflateFailed),
                    Some(d) => if d.len() == dl {
                        Ok(d)
                    } else {
                        Err(CodecError::DataLengthMismatch)
                    },
                }
            },
        },
    }
}

/// Takes one envelope out of `data` at `pos`: the frame and the position after the envelope.
/// On `NeedMore` nothing is consumed and the caller keeps the bytes for the next read.
pub fn read_frame(data: &[u8], pos: usize, compression: Option<u32>) -> (r: Result<(Frame, usize), FrameError>)
    requires
        pos <= data@.len(),
    ensures
        match frame_spec(data@.subrange(pos as int, data@.len() as int), compression) {
            Ok((id, p, n)) => r matches Ok((f, end)) && f.id == id && f.payload@ == p && end == pos + n,
            Err(e) => r == Err::<(Frame, usize), FrameError>(e),
        },
{
    let ghost s = data@.subrange(pos as int, data@.len() as int);
    let (len, h) = match VarInt::decode(data, pos) {
        Ok(x) => x,
        Err(CodecError::Truncated) => return Err(FrameError::NeedMore),
        Err(e) => return Err(FrameError::Malformed(e)),
    };
    if len.0 < 0 {
        return Err(FrameError::Malformed(CodecError::NegativeLength));
    }
    let n = len.0 as usize;
    if data.len() - h < n {
        return Err(FrameError::NeedMore);
    }
    let body = copy_range(data, h, h + n);
    assert(body@ == s.subrange(h - pos, h - pos + n));
    let inner: Vec<u8> = match compression {
        None => body,
        Some(_) => {
            assert(body@.subrange(0, body@.len() as int) =~= body@);
            let (dl, k) = match VarInt::decode(body.as_slice(), 0) {
                Ok(x) => x,
                Err(e) => return Err(FrameError::Malformed(e)),
            };
            if dl.0 == 0 {
                copy_range(body.as_slice(), k, body.len())
            } else {
                let rest = copy_range(body.as_slice(), k, body.len());
                match zlib_decompress(rest.as_slice()) {
                    None => return Err(FrameError::Malformed(CodecError::InflateFailed)),
                    Some(d) => {
                        if dl.0 > 0 && d.len() == dl.0 as usize {
                            d
                        } else {
                            return Err(FrameError::Malformed(CodecError::DataLengthMismatch));
                        }
                    },
                }
            }
        },
    };
    assert(inner_data(body@, compression) == Ok::<Seq<u8>, CodecError>(inner@));
    assert(inner@.subrange(0, inner@.len() as int) =~= inner@);
    let (id, k) = match VarInt::decode(inner.as_slice(), 0) {
        Ok(x) => x,
        Err(e) => return Err(FrameError::Malformed(e)),
    };
    let payload = copy_range(inner.as_slice(), k, inner.len());
    Ok((Frame { id: id.0, payload }, h + n))
}

/// The frames that repeated framing takes from the front of `s`, how many bytes they
/// span, and what stopped it where bytes remain.
pub open spec fn frames_of(s: Seq<u8>, compression: Option<u32>) -> (Seq<(i32, Seq<u8>)>, nat, Option<FrameError>)
    decreases s.len(),
{
    if s.len() == 0 {
        (Seq::empty(), 0, None)
    } else {
        match frame_spec(s, compression) {
            Ok((id, p, n)) => if 0 < n <= s.len() {
                let rest = frames_of(s.subrange(n as int, s.len() as int), compression);
                (seq![(id, p)] + rest.0, n + rest.1, rest.2)
            } else {
                (Seq::empty(), 0, None)
            },
            Err(e) => (Seq::empty(), 0, Some(e)),
        }
    }
}

pub open spec fn frames_model(f: Seq<Frame>) -> Seq<(i32, Seq<u8>)> {
    f.map_values(|x: Frame| (x.id, x.payload@))
}

/// An envelope always spans at least one byte and no more than the bytes given.
pub proof fn lemma_frame_spec_span(s: Seq<u8>, compression: Option<u32>)
    ensures
        frame_spec(s, compression) matches Ok((id, p, n)) ==> 0 < n <= s.len(),
{
    crate::varint::lemma_varint_parse_bound(s, 5);
}

/// Frames every complete envelope in `data`: the frames in order, the number of bytes they
/// span, and what stopped framing where bytes remain (`NeedMore` for a partial envelope).
pub fn read_frames(data: &[u8], compression: Option<u32>) -> (r: (Vec<Frame>, usize, Option<FrameError>))
    ensures
        (frames_model(r.0@), r.1 as nat, r.2) == frames_of(data@, compression),
{
    let mut out: Vec<Frame> = Vec::new();
    let mut pos: usize = 0;
    assert(data@.subrange(0, data@.len() as int) =~= data@);
    assert(frames_model(out@) =~= Seq::<(i32, Seq<u8>)>::empty());
    assert(frames_model(out@) + frames_of(data@, compression).0 =~= frames_of(data@, compression).0);
    loop
        invariant
            pos <= data@.len(),
            frames_of(data@, compression) == ({
                let rest = frames_of(data@.subrange(pos as int, data@.len() as int), compression);
                (frames_model(out@) + rest.0, (pos + rest.1) as nat, rest.2)
            }),
        decreases data@.len() - pos,
    {
        let ghost s = data@.subrange(pos as int, data@.len() as int);
        if pos == data.len() {
            assert(frames_model(out@) + Seq::<(i32, Seq<u8>)>::empty() =~= frames_model(out@));
            return (out, pos, None);
        }
        proof {
            lemma_frame_spec_span(s, compression);
        }
        match read_frame(data, pos, compression) {
            Ok((f, end)) => {
                proof {
                    let n = (end - pos) as nat;
                    assert(s.subrange(n as int, s.len() as int) =~= data@.subrange(end as int, data@.len() as int));
                    assert(frames_model(out@.push(f)) =~= frames_model(out@).push((f.id, f.payload@)));
                    let rest = frames_of(data@.subrange(end as int, data@.len() as int), compression);
                    assert(frames_model(out@.push(f)) + rest.0 =~= frames_model(out@) + (seq![(f.id, f.payload@)] + rest.0));
                }
                out.push(f);
                pos = end;
            },
            Err(e) => {
                assert(frames_model(out@) + Seq::<(i32, Seq<u8>)>::empty() =~= frames_model(out@));
                return (out, pos, Some(e));
            },
        }
    }
}

/// Whether the packet `(id, payload)` can be framed back after it is written: its lengths
/// fit their prefixes and, where it is deflated, the deflated form's too, and that form
/// inflates back (which `write_envelope` ensures of every packet it deflates).
pub open spec fn frames_back(id: i32, payload: Seq<u8>, compression: Option<u32>) -> bool {
    payload.len() + 10 <= i32::MAX && match compression {
        None => true,
        Some(t) => packet_data(id, payload).len() < t || (zlib_compressed(packet_data(id, payload)).len() + 10
            <= i32::MAX && zlib_inflated(zlib_compressed(packet_data(id, payload))) == Some(
            packet_data(id, payload),
        )),
    }
}

/// Framing the envelope of a packet, followed by anything, gives the packet back and spans
/// exactly the envelope.
pub proof fn lemma_frame_envelope(id: i32, payload: Seq<u8>, compression: Option<u32>, rest: Seq<u8>)
    requires
        frames_back(id, payload, compression),
    ensures
        frame_spec(envelope(id, payload, compression) + rest, compression) == Ok::<(i32, Seq<u8>, nat), FrameError>(
            (id, payload, envelope(id, payload, compression).len()),
        ),
{
    let d = packet_data(id, payload);
    lemma_varint_round_trip(id, payload);
    crate::varint::lemma_varint_round_trip(id, Seq::empty());
    crate::varint::lemma_varint_round_trip(0, d);
    crate::varint::lemma_varint_round_trip(0, Seq::empty());
    let deflated = match compression {
        Some(t) => d.len() >= t,
        None => false,
    };
    if deflated {
        crate::varint::lemma_varint_round_trip(d.len() as i32, zlib_compressed(d));
        crate::varint::lemma_varint_round_trip(d.len() as i32, Seq::empty());
    }
    let body = match compression {
        None => d,
        Some(t) => compressed_body(d, t),
    };
    let len = body.len() as i32;
    assert(body.len() <= i32::MAX);
    let env = envelope(id, payload, compression);
    assert(env =~= varint_wire(len) + body);
    let s = env + rest;
    lemma_varint_round_trip(len, body + rest);
    assert(s =~= varint_wire(len) + (body + rest));
    let h = varint_wire(len).len();
    assert(s.subrange(h as int, h + len) =~= body);
    assert(d.subrange(varint_wire(id).len() as int, d.len() as int) =~= payload);
    match compression {
        None => {},
        Some(t) => {
            if d.len() < t {
                assert(body.subrange(varint_wire(0).len() as int, body.len() as int) =~= d);
            } else {
                let k = varint_wire(d.len() as i32).len();
                assert(body.subrange(k as int, body.len() as int) =~= zlib_compressed(d));
                assert(d.len() as i32 != 0);
            }
        },
    }
}

/// The concatenated envelopes of `packets`.
pub open spec fn stream(packets: Seq<(i32, Seq<u8>)>, compression: Option<u32>) -> Seq<u8>
    decreases packets.len(),
{
    if packets.len() == 0 {
        Seq::empty()
    } else {
        envelope(packets[0].0, packets[0].1, compression) + stream(packets.drop_first(), compression)
    }
}

/// Framing a stream of `k` envelopes yields exactly the `k` packets, spans the whole
/// stream and leaves no residue.
pub proof fn lemma_stream_round_trip(packets: Seq<(i32, Seq<u8>)>, compression: Option<u32>)
    requires
        forall|i: int| 0 <= i < packets.len() ==> frames_back(#[trigger] packets[i].0, packets[i].1, compression),
    ensures
        frames_of(stream(packets, compression), compression) == (packets, stream(packets, compression).len(), None::<FrameError>),
    decreases packets.len(),
{
    if packets.len() == 0 {
        assert(packets =~= Seq::<(i32, Seq<u8>)>::empty());
    } else {
        let (id, p) = packets[0];
        assert(frames_back(packets[0].0, packets[0].1, compression));
        let tail = packets.drop_first();
        assert forall|i: int| 0 <= i < tail.len() implies frames_back(#[trigger] tail[i].0, tail[i].1, compression) by {
            assert(tail[i] == packets[i + 1]);
        }
        lemma_stream_round_trip(tail, compression);
        let rest = stream(tail, compression);
        lemma_frame_envelope(id, p, compression, rest);
        let s = stream(packets, compression);
        let n = envelope(id, p, compression).len();
        assert(s.subrange(n as int, s.len() as int) =~= rest);
        assert(seq![(id, p)] + tail =~= packets);
    }
}

/// In the compressed form the announced data length is 0 exactly when the packet's id and
/// payload together are below the threshold; otherwise it is their length.
pub proof fn lemma_data_length_field(id: i32, payload: Seq<u8>, threshold: u32)
    requires
        payload.len() + 10 <= i32::MAX,
    ensures
        ({
            let d = packet_data(id, payload);
            varint_read(compressed_body(d, threshold)) == Ok::<(i32, nat), CodecError>(
                if d.len() < threshold {
                    (0i32, varint_wire(0).len())
                } else {
                    (d.len() as i32, varint_wire(d.len() as i32).len())
                },
            ) && ((if d.len() < threshold { 0i32 } else { d.len() as i32 }) == 0 <==> d.len() < threshold)
        }),
{
    let d = packet_data(id, payload);
    lemma_varint_round_trip(id, payload);
    if d.len() < threshold {
        lemma_varint_round_trip(0, d);
    } else {
        lemma_varint_round_trip(d.len() as i32, zlib_compressed(d));
    }
}

} // verus!
