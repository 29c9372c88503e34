//! The file-transfer client logic: framing of file bytes for transport,
//! filename and node-list encoding, and the interpretation of master and
//! datanode replies.
//!
//! A transferred file is a series of `(u32 little-endian size, payload)`
//! chunks closed by a zero size, followed by a four-byte confirmation
//! sentinel.  The surrounding process moves the bytes; everything here is
//! pure computation on them.

use vstd::bytes::{
    lemma_auto_spec_u32_to_from_le_bytes, spec_u32_from_le_bytes, spec_u32_to_le_bytes,
    u32_from_le_bytes, u32_to_le_bytes,
};
use vstd::prelude::*;
use vstd::slice::slice_subrange;

use crate::errors::ClusterError;

verus! {

/// Transfer buffer size: the largest chunk placed in one frame.
pub const BUF_SIZE: usize = 2048;

/// The end-of-transfer confirmation sentinel.
pub const CONFIRMATION: [u8; 4] = [0xDE, 0xAD, 0xBE, 0xEF];

/// The framed form of a byte string: full-size chunks, a zero size, the
/// confirmation.
pub open spec fn spec_frames(data: Seq<u8>) -> Seq<u8>
    decreases data.len(),
{
    if data.len() == 0 {
        spec_u32_to_le_bytes(0) + CONFIRMATION@
    } else {
        let c = if data.len() < BUF_SIZE {
            data.len() as int
        } else {
            BUF_SIZE as int
        };
        spec_u32_to_le_bytes(c as u32) + data.take(c) + spec_frames(data.skip(c))
    }
}

/// Reading a framed byte string: `None` when the bytes are not a valid
/// framing.
pub open spec fn spec_parse_frames(bytes: Seq<u8>) -> Option<Seq<u8>>
    decreases bytes.len(),
{
    if bytes.len() < 4 {
        None
    } else {
        let size = spec_u32_from_le_bytes(bytes.take(4)) as int;
        if size == 0 {
            if bytes.len() >= 8 && bytes.subrange(4, 8) == CONFIRMATION@ {
                Some(Seq::empty())
            } else {
                None
            }
        } else if 4 + size <= bytes.len() {
            match spec_parse_frames(bytes.skip(4 + size)) {
                Some(rest) => Some(bytes.subrange(4, 4 + size) + rest),
                None => None,
            }
        } else {
            None
        }
    }
}

/// Frame a byte string for transfer.
pub fn frame_payload(data: &Vec<u8>) -> (r: Vec<u8>)
    ensures
        r@ == spec_frames(data@),
{
    let mut out: Vec<u8> = Vec::new();
    let len = data.len();
    let mut off: usize = 0;
    proof {
        assert(data@.skip(0) =~= data@);
    }
    while off < len
        invariant
            len == data@.len(),
            off <= len,
            spec_frames(data@) == out@ + spec_frames(data@.skip(off as int)),
        decreases len - off,
    {
        let c = if len - off < BUF_SIZE {
            len - off
        } else {
            BUF_SIZE
        };
        let ghost rem = data@.skip(off as int);
        let mut size_bytes = u32_to_le_bytes(c as u32);
        out.append(&mut size_bytes);
        let ghost out_head = out@;
        let mut k: usize = 0;
        while k < c
            invariant
                off + c <= len,
                len == data@.len(),
                k <= c,
                out@ == out_head + data@.subrange(off as int, off + k),
            decreases c - k,
        {
            out.push(data[off + k]);
            k += 1;
            proof {
                assert(out@ =~= out_head + data@.subrange(off as int, off + k));
            }
        }
        proof {
            assert(rem.take(c as int) =~= data@.subrange(off as int, off + c));
            assert(rem.skip(c as int) =~= data@.skip(off + c));
            assert(spec_frames(rem) == spec_u32_to_le_bytes(c as u32) + rem.take(c as int)
                + spec_frames(rem.skip(c as int)));
        }
        off += c;
    }
    proof {
        assert(data@.skip(len as int) =~= Seq::<u8>::empty());
    }
    let mut terminator = u32_to_le_bytes(0);
    out.append(&mut terminator);
    out.push(0xDE);
    out.push(0xAD);
    out.push(0xBE);
    out.push(0xEF);
    proof {
        assert(spec_frames(Seq::<u8>::empty()) =~= spec_u32_to_le_bytes(0) + CONFIRMATION@);
        assert(out@ =~= spec_frames(data@));
    }
    out
}

/// Read a framed transfer back into the raw bytes; a framing error is a
/// protocol violation.
pub fn parse_framed(bytes: &Vec<u8>) -> (r: Result<Vec<u8>, ClusterError>)
    ensures
        match r {
            Ok(data) => spec_parse_frames(bytes@) == Some(data@),
            Err(e) => spec_parse_frames(bytes@) is None && e == ClusterError::ProtocolViolation,
        },
{
    proof {
        lemma_auto_spec_u32_to_from_le_bytes();
    }
    let mut acc: Vec<u8> = Vec::new();
    let len = bytes.len();
    let mut off: usize = 0;
    proof {
        assert(bytes@.skip(0) =~= bytes@);
    }
    loop
        invariant
            len == bytes@.len(),
            off <= len,
            // Parsing the whole input succeeds exactly when parsing the
            // remainder does, and the result is what was accumulated plus
            // the remainder's content.
            (spec_parse_frames(bytes@) is Some <==> spec_parse_frames(bytes@.skip(off as int))
                is Some),
            (spec_parse_frames(bytes@.skip(off as int)) matches Some(rest) ==> spec_parse_frames(
                bytes@,
            ) == Some(acc@ + rest)),
        decreases len - off,
    {
        let ghost rem = bytes@.skip(off as int);
        if len - off < 4 {
            proof {
                assert(rem.len() < 4);
            }
            return Err(ClusterError::ProtocolViolation);
        }
        let size_slice = slice_subrange(bytes.as_slice(), off, off + 4);
        let size32 = u32_from_le_bytes(size_slice);
        proof {
            assert(rem.take(4) =~= bytes@.subrange(off as int, off + 4));
        }
        if size32 == 0 {
            if len - off < 8 {
                return Err(ClusterError::ProtocolViolation);
            }
            let c0 = bytes[off + 4];
            let c1 = bytes[off + 5];
            let c2 = bytes[off + 6];
            let c3 = bytes[off + 7];
            if c0 == 0xDE && c1 == 0xAD && c2 == 0xBE && c3 == 0xEF {
                proof {
                    assert(rem.subrange(4, 8) =~= CONFIRMATION@);
                    assert(spec_parse_frames(rem) == Some(Seq::<u8>::empty()));
                    assert(acc@ + Seq::<u8>::empty() =~= acc@);
                }
                return Ok(acc);
            } else {
                proof {
                    assert(rem.subrange(4, 8)[0] == bytes@[off + 4]);
                    assert(rem.subrange(4, 8)[1] == bytes@[off + 5]);
                    assert(rem.subrange(4, 8)[2] == bytes@[off + 6]);
                    assert(rem.subrange(4, 8)[3] == bytes@[off + 7]);
                    assert(rem.subrange(4, 8) != CONFIRMATION@) by {
                        if rem.subrange(4, 8) == CONFIRMATION@ {
                            assert(rem.subrange(4, 8)[0] == 0xDE && rem.subrange(4, 8)[1] == 0xAD
                                && rem.subrange(4, 8)[2] == 0xBE && rem.subrange(4, 8)[3]
                                == 0xEF);
                        }
                    }
                }
                return Err(ClusterError::ProtocolViolation);
            }
        }
        let size = size32 as usize;
        if size > len - (off + 4) {
            proof {
                assert(4 + size as int > rem.len());
            }
            return Err(ClusterError::ProtocolViolation);
        }
        let ghost acc_prev = acc@;
        let mut k: usize = 0;
        while k < size
            invariant
                off + 4 + size <= len,
                len == bytes@.len(),
                k <= size,
                acc@ == acc_prev + bytes@.subrange(off + 4, off + 4 + k),
            decreases size - k,
        {
            acc.push(bytes[off + 4 + k]);
            k += 1;
            proof {
                assert(acc@ =~= acc_prev + bytes@.subrange(off + 4, off + 4 + k));
            }
        }
        proof {
            assert(rem.subrange(4, 4 + size as int) =~= bytes@.subrange(off + 4, off + 4 + size));
            assert(rem.skip(4 + size as int) =~= bytes@.skip(off + 4 + size));
            assert(spec_parse_frames(rem) == (match spec_parse_frames(
                rem.skip(4 + size as int),
            ) {
                Some(rest) => Some(rem.subrange(4, 4 + size as int) + rest),
                None => None::<Seq<u8>>,
            }));
            let pr = spec_parse_frames(bytes@.skip(off + 4 + size));
            if pr is Some {
                let rest = pr->Some_0;
                assert(acc@ + rest =~= acc_prev + (rem.subrange(4, 4 + size as int) + rest));
            }
        }
        off += 4 + size;
    }
}

/// Framing then reading a transfer hands back exactly the bytes that
/// went in.
pub proof fn lemma_frames_round_trip(data: Seq<u8>)
    ensures
        spec_parse_frames(spec_frames(data)) == Some(data),
    decreases data.len(),
{
    lemma_auto_spec_u32_to_from_le_bytes();
    let framed = spec_frames(data);
    if data.len() == 0 {
        assert(framed.take(4) =~= spec_u32_to_le_bytes(0));
        assert(framed.subrange(4, 8) =~= CONFIRMATION@);
        assert(spec_parse_frames(framed) == Some(Seq::<u8>::empty()));
        assert(Seq::<u8>::empty() =~= data);
    } else {
        let c = if data.len() < BUF_SIZE {
            data.len() as int
        } else {
            BUF_SIZE as int
        };
        lemma_frames_round_trip(data.skip(c));
        assert(framed.take(4) =~= spec_u32_to_le_bytes(c as u32));
        assert(spec_u32_from_le_bytes(framed.take(4)) == c as u32);
        assert(framed.subrange(4, 4 + c) =~= data.take(c));
        assert(framed.skip(4 + c) =~= spec_frames(data.skip(c)));
        assert(data.take(c) + data.skip(c) =~= data);
    }
}

/// A filename on the wire: one length byte, then the name.
pub fn generate_filename_bytes(filename: &Vec<u8>) -> (r: Vec<u8>)
    requires
        filename@.len() <= 255,
    ensures
        r@ == seq![filename@.len() as u8] + filename@,
{
    let mut out: Vec<u8> = Vec::new();
    out.push(filename.len() as u8);
    let n = filename.len();
    for i in 0..n
        invariant
            n == filename@.len() <= 255,
            out@ == seq![filename@.len() as u8] + filename@.subrange(0, i as int),
    {
        out.push(filename[i]);
        proof {
            assert(out@ =~= seq![filename@.len() as u8] + filename@.subrange(0, i + 1 as int));
        }
    }
    proof {
        assert(out@ =~= seq![filename@.len() as u8] + filename@);
    }
    out
}

/// Read a length-prefixed filename starting at `start`; `None` when the
/// bytes run short.  On success also returns the position after the name.
pub fn parse_filename(bytes: &Vec<u8>, start: usize) -> (r: Option<(Vec<u8>, usize)>)
    ensures
        match r {
            Some(pair) => {
                &&& start < bytes@.len()
                &&& start + 1 + bytes@[start as int] <= bytes@.len()
                &&& pair.0@ == bytes@.subrange(start + 1, start + 1 + bytes@[start as int])
                &&& pair.1 == start + 1 + bytes@[start as int]
            },
            None => start >= bytes@.len() || start + 1 + bytes@[start as int] > bytes@.len(),
        },
{
    let len = bytes.len();
    if start >= len {
        return None;
    }
    let name_len = bytes[start] as usize;
    if name_len > len - (start + 1) {
        return None;
    }
    let mut name: Vec<u8> = Vec::new();
    let mut k: usize = 0;
    while k < name_len
        invariant
            start + 1 + name_len <= len,
            len == bytes@.len(),
            k <= name_len,
            name_len == bytes@[start as int],
            name@ == bytes@.subrange(start + 1, start + 1 + k),
        decreases name_len - k,
    {
        name.push(bytes[start + 1 + k]);
        k += 1;
        proof {
            assert(name@ =~= bytes@.subrange(start + 1, start + 1 + k));
        }
    }
    Some((name, start + 1 + name_len))
}

/// A node list on the wire: one count byte, then the node indices.  Used
/// in the master's replies to write and list requests.
pub fn encode_node_list(nodes: &Vec<u8>) -> (r: Vec<u8>)
    requires
        nodes@.len() <= 255,
    ensures
        r@ == seq![nodes@.len() as u8] + nodes@,
{
    generate_filename_bytes(nodes)
}

/// Interpret the master's reply to a write request: a count byte and
/// that many datanode indices.
pub fn put_file(reply: &Vec<u8>) -> (r: Result<Vec<u8>, ClusterError>)
    ensures
        match r {
            Ok(nodes) => {
                &&& reply@.len() >= 1
                &&& reply@.len() >= 1 + reply@[0]
                &&& nodes@ == reply@.subrange(1, 1 + reply@[0])
            },
            Err(e) => {
                &&& e == ClusterError::ProtocolViolation
                &&& (reply@.len() == 0 || reply@.len() < 1 + reply@[0])
            },
        },
{
    match parse_filename(reply, 0) {
        Some((nodes, _)) => Ok(nodes),
        None => Err(ClusterError::ProtocolViolation),
    }
}

/// Interpret the master's reply to a read request: the datanode to read
/// from, or nothing when the file is not in the store.
pub fn get_file(reply: u8) -> (r: Result<u8, ClusterError>)
    ensures
        reply == 0 ==> r == Err::<u8, ClusterError>(ClusterError::NotFound),
        reply != 0 ==> r == Ok::<u8, ClusterError>(reply),
{
    if reply == 0 {
        Err(ClusterError::NotFound)
    } else {
        Ok(reply)
    }
}

/// The datanodes whose streams answered with the confirmation sentinel,
/// in order.
pub open spec fn spec_confirmed(replies: Seq<(u8, [u8; 4])>) -> Seq<u8>
    decreases replies.len(),
{
    if replies.len() == 0 {
        Seq::empty()
    } else {
        spec_confirmed(replies.drop_last()) + (if replies.last().1@ == CONFIRMATION@ {
            seq![replies.last().0]
        } else {
            Seq::empty()
        })
    }
}

/// Filter a write fan-out's replies down to the nodes that confirmed
/// receipt: the subset a put reports as stored.
pub fn confirmed_nodes(replies: &Vec<(u8, [u8; 4])>) -> (r: Vec<u8>)
    ensures
        r@ == spec_confirmed(replies@),
{
    let mut out: Vec<u8> = Vec::new();
    let n = replies.len();
    for i in 0..n
        invariant
            n == replies@.len(),
            out@ == spec_confirmed(replies@.subrange(0, i as int)),
    {
        let ghost prefix = replies@.subrange(0, i as int);
        let ghost prefix1 = replies@.subrange(0, i + 1 as int);
        proof {
            assert(prefix1.drop_last() =~= prefix);
            assert(prefix1.last() == replies@[i as int]);
        }
        let conf = &replies[i].1;
        if conf[0] == 0xDE && conf[1] == 0xAD && conf[2] == 0xBE && conf[3] == 0xEF {
            out.push(replies[i].0);
            proof {
                assert(replies@[i as int].1@ =~= CONFIRMATION@);
                assert(out@ =~= spec_confirmed(prefix1));
            }
        } else {
            proof {
                assert(replies@[i as int].1@ != CONFIRMATION@) by {
                    if replies@[i as int].1@ == CONFIRMATION@ {
                        assert(replies@[i as int].1@[0] == 0xDE && replies@[i as int].1@[1]
                            == 0xAD && replies@[i as int].1@[2] == 0xBE && replies@[i as int].1@[3]
                            == 0xEF);
                    }
                }
                assert(out@ =~= spec_confirmed(prefix1));
            }
        }
    }
    proof {
        assert(replies@.subrange(0, n as int) =~= replies@);
    }
    out
}

} // verus!
