use vstd::prelude::*;

use crate::wire::{copy_range, push_all, push_u32_le, read_u32_le_at, u32_le_bytes, u32_of_le};
use crate::RsyncError;

verus! {

// The multiplexed envelope of the read side. Every inbound byte after the
// handshake belongs to a frame: a 32-bit little-endian header word whose low
// 24 bits are the payload length and whose top byte is the tag, then the
// payload. Tag 7 carries protocol data; tags above 7 carry log lines; tags
// below 7 are unknown and fatal. The write side never frames.

pub const DATA_TAG: u8 = 7;

pub open spec fn frame_word(tag: u8, len: u32) -> u32 {
    ((tag as u32) << 24) | len
}

pub open spec fn frame_bytes(tag: u8, payload: Seq<u8>) -> Seq<u8> {
    u32_le_bytes(frame_word(tag, payload.len() as u32)) + payload
}

/// Splits a byte stream into data payload, log payloads, and the trailing
/// bytes of a frame still incomplete; `None` on an unknown tag.
pub open spec fn spec_demux(s: Seq<u8>) -> Option<(Seq<u8>, Seq<Seq<u8>>, Seq<u8>)>
    decreases s.len(),
{
    if s.len() < 4 {
        Some((Seq::empty(), Seq::empty(), s))
    } else {
        let w = u32_of_le(s[0], s[1], s[2], s[3]);
        let len = (w & 0xffffff) as int;
        let tag = (w >> 24) as u8;
        if tag < 7 {
            None
        } else if s.len() < 4 + len {
            Some((Seq::empty(), Seq::empty(), s))
        } else {
            match spec_demux(s.skip(4 + len)) {
                None => None,
                Some((d, l, r)) => if tag == 7 {
                    Some((s.subrange(4, 4 + len) + d, l, r))
                } else {
                    Some((d, seq![s.subrange(4, 4 + len)] + l, r))
                },
            }
        }
    }
}

/// Consumes every complete frame of `buf` from `pos` on, appending data
/// payload to `data` and each log payload to `logs`; returns the leftover
/// bytes of the incomplete trailing frame, to be retried once more input
/// has arrived.
pub fn demux_into(buf: &Vec<u8>, pos: usize, data: &mut Vec<u8>, logs: &mut Vec<Vec<u8>>) -> (r:
    Result<Vec<u8>, RsyncError>)
    requires
        pos <= buf.len(),
    ensures
        match spec_demux(buf@.skip(pos as int)) {
            Some((d, l, rest)) => r matches Ok(rv) && rv@ == rest && final(data)@ == old(data)@ + d
                && final(logs).deep_view() == old(logs).deep_view() + l,
            None => r matches Err(e) && (e matches RsyncError::ProtocolError),
        },
    decreases buf.len() - pos,
{
    let ghost s = buf@.skip(pos as int);
    if buf.len() - pos < 4 {
        let rest = copy_range(buf, pos, buf.len());
        proof {
            assert(rest@ =~= s);
            assert(data@ =~= old(data)@ + Seq::<u8>::empty());
            assert(logs.deep_view() =~~= old(logs).deep_view() + Seq::<Seq<u8>>::empty());
        }
        return Ok(rest);
    }
    let w = match read_u32_le_at(buf, pos) {
        Some(p) => p.0,
        None => {
            return Err(RsyncError::InternalInvariant);
        },
    };
    proof {
        assert(s[0] == buf@[pos as int] && s[1] == buf@[pos + 1] && s[2] == buf@[pos + 2] && s[3]
            == buf@[pos + 3]);
    }
    let len_u: u32 = w & 0xffffff;
    let tag_u: u32 = w >> 24;
    proof {
        assert(w & 0xffffff < 0x1000000 && w >> 24 < 0x100) by (bit_vector);
    }
    let len: usize = len_u as usize;
    let tag: u8 = tag_u as u8;
    if tag < 7 {
        return Err(RsyncError::ProtocolError);
    }
    if buf.len() - pos - 4 < len {
        let rest = copy_range(buf, pos, buf.len());
        proof {
            assert(rest@ =~= s);
            assert(data@ =~= old(data)@ + Seq::<u8>::empty());
            assert(logs.deep_view() =~~= old(logs).deep_view() + Seq::<Seq<u8>>::empty());
        }
        return Ok(rest);
    }
    let payload = copy_range(buf, pos + 4, pos + 4 + len);
    proof {
        assert(payload@ =~= s.subrange(4, 4 + len as int));
        assert(buf@.skip(pos + 4 + len as int) =~= s.skip(4 + len as int));
    }
    let ghost data0 = data@;
    let ghost logs0 = logs.deep_view();
    if tag == 7 {
        push_all(data, &payload);
    } else {
        logs.push(payload);
        proof {
            assert(logs.deep_view() =~~= logs0 + seq![s.subrange(4, 4 + len as int)]);
        }
    }
    let r = demux_into(buf, pos + 4 + len, data, logs);
    proof {
        match spec_demux(s) {
            Some((d, l, rest)) => {
                if tag == 7 {
                    assert(data@ =~= old(data)@ + d);
                    assert(logs.deep_view() =~~= old(logs).deep_view() + l);
                } else {
                    assert(data@ =~= old(data)@ + d);
                    assert(logs.deep_view() =~~= old(logs).deep_view() + l);
                }
            },
            None => {},
        }
    }
    r
}

/// Demultiplexes `buf`: the data-channel bytes, the log payloads in order,
/// and the unconsumed tail. Fails exactly on an unknown tag.
pub fn demux(buf: &Vec<u8>) -> (r: Result<(Vec<u8>, Vec<Vec<u8>>, Vec<u8>), RsyncError>)
    ensures
        match spec_demux(buf@) {
            Some((d, l, rest)) => r matches Ok(t) && t.0@ == d && t.1.deep_view() == l && t.2@
                == rest,
            None => r matches Err(e) && (e matches RsyncError::ProtocolError),
        },
{
    let mut data: Vec<u8> = Vec::new();
    let mut logs: Vec<Vec<u8>> = Vec::new();
    proof {
        assert(buf@.skip(0) =~= buf@);
    }
    match demux_into(buf, 0, &mut data, &mut logs) {
        Ok(rest) => {
            proof {
                match spec_demux(buf@) {
                    Some((d, l, r0)) => {
                        assert(data@ =~= d);
                        assert(logs.deep_view() =~~= l);
                    },
                    None => {},
                }
            }
            Ok((data, logs, rest))
        },
        Err(e) => Err(e),
    }
}

/// Wraps one payload in a frame; used by tests and by the scenarios of the
/// protocol's own test rig, never by the client's send side, which writes
/// verbatim.
pub fn encode_frame(tag: u8, payload: &Vec<u8>) -> (r: Vec<u8>)
    requires
        payload@.len() < 0x1000000,
    ensures
        r@ == frame_bytes(tag, payload@),
{
    let w: u32 = ((tag as u32) << 24) | (payload.len() as u32);
    let mut out: Vec<u8> = Vec::new();
    push_u32_le(&mut out, w);
    push_all(&mut out, payload);
    proof {
        assert(out@ =~= frame_bytes(tag, payload@));
    }
    out
}

// --- the round-trip law of the envelope.

pub open spec fn frames_valid(fs: Seq<(u8, Seq<u8>)>) -> bool {
    forall|i: int| 0 <= i < fs.len() ==> (#[trigger] fs[i]).0 >= 7 && fs[i].1.len() < 0x1000000
}

pub open spec fn frames_wire(fs: Seq<(u8, Seq<u8>)>) -> Seq<u8>
    decreases fs.len(),
{
    if fs.len() == 0 {
        Seq::empty()
    } else {
        frame_bytes(fs[0].0, fs[0].1) + frames_wire(fs.drop_first())
    }
}

/// The data payloads of `fs`, in order, as one stream.
pub open spec fn frames_data(fs: Seq<(u8, Seq<u8>)>) -> Seq<u8>
    decreases fs.len(),
{
    if fs.len() == 0 {
        Seq::empty()
    } else if fs[0].0 == 7 {
        fs[0].1 + frames_data(fs.drop_first())
    } else {
        frames_data(fs.drop_first())
    }
}

/// The log payloads of `fs`, in order.
pub open spec fn frames_logs(fs: Seq<(u8, Seq<u8>)>) -> Seq<Seq<u8>>
    decreases fs.len(),
{
    if fs.len() == 0 {
        Seq::empty()
    } else if fs[0].0 == 7 {
        frames_logs(fs.drop_first())
    } else {
        seq![fs[0].1] + frames_logs(fs.drop_first())
    }
}

/// Law: any interleaving of data frames and log frames demultiplexes back
/// to exactly the original data-payload stream, with the log payloads
/// delivered in order and nothing left over.
pub proof fn lemma_demux_roundtrip(fs: Seq<(u8, Seq<u8>)>)
    requires
        frames_valid(fs),
    ensures
        spec_demux(frames_wire(fs)) == Some(
            (frames_data(fs), frames_logs(fs), Seq::<u8>::empty()),
        ),
    decreases fs.len(),
{
    if fs.len() == 0 {
        assert(spec_demux(frames_wire(fs)) == Some(
            (Seq::<u8>::empty(), Seq::<Seq<u8>>::empty(), frames_wire(fs)),
        ));
    } else {
        let tag = fs[0].0;
        let payload = fs[0].1;
        let len = payload.len() as u32;
        let w0 = frame_word(tag, len);
        let s = frames_wire(fs);
        let hdr = u32_le_bytes(w0);
        assert(s =~= hdr + payload + frames_wire(fs.drop_first()));
        assert(s.len() >= 4);
        assert(s[0] == hdr[0] && s[1] == hdr[1] && s[2] == hdr[2] && s[3] == hdr[3]);
        crate::wire::lemma_u32_le_roundtrip(w0);
        let w = u32_of_le(s[0], s[1], s[2], s[3]);
        assert(w == w0);
        assert((((tag as u32) << 24) | len) & 0xffffff == len && (((tag as u32) << 24) | len) >> 24
            == tag as u32) by (bit_vector)
            requires
                len < 0x1000000u32,
        ;
        assert(s.len() >= 4 + len);
        assert(s.subrange(4, 4 + len as int) =~= payload);
        assert(s.skip(4 + len as int) =~= frames_wire(fs.drop_first()));
        assert(frames_valid(fs.drop_first())) by {
            assert(forall|i: int|
                0 <= i < fs.drop_first().len() ==> #[trigger] fs.drop_first()[i] == fs[i + 1]);
        }
        lemma_demux_roundtrip(fs.drop_first());
        if tag == 7 {
            assert(frames_data(fs) == payload + frames_data(fs.drop_first()));
        } else {
            assert(frames_logs(fs) == seq![payload] + frames_logs(fs.drop_first()));
        }
    }
}

} // verus!
