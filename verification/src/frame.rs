//! The wire unit: one frame is a code byte, a 32-bit big-endian payload
//! length, and exactly that many payload bytes.
//!
//! `write_frame` appends a complete frame to a byte buffer; `read_frame`
//! reads one back, accepting exactly the frames `write_frame` produces and
//! failing on anything truncated. The message-code taxonomy (requests 1-3,
//! success 4, everything else an error frame) also lives here.
use vstd::prelude::*;

verus! {

/// The four bytes of `n` in big-endian order.
pub open spec fn be32(n: u32) -> Seq<u8> {
    seq![(n >> 24) as u8, (n >> 16) as u8, (n >> 8) as u8, n as u8]
}

/// The value the four big-endian bytes stand for.
pub open spec fn be32_val(b0: u8, b1: u8, b2: u8, b3: u8) -> u32 {
    ((b0 as u32) << 24) | ((b1 as u32) << 16) | ((b2 as u32) << 8) | (b3 as u32)
}

/// Reassembling the four bytes of `n` yields `n` again.
pub proof fn lemma_be32_val(n: u32)
    ensures
        be32_val((n >> 24) as u8, (n >> 16) as u8, (n >> 8) as u8, n as u8) == n,
{
    assert((((n >> 24) as u8 as u32) << 24) | (((n >> 16) as u8 as u32) << 16) | (((n
        >> 8) as u8 as u32) << 8) | (n as u8 as u32) == n) by (bit_vector);
}

/// Splitting the value of four big-endian bytes yields those bytes again.
pub proof fn lemma_be32_bytes(b0: u8, b1: u8, b2: u8, b3: u8)
    ensures
        (be32_val(b0, b1, b2, b3) >> 24) as u8 == b0,
        (be32_val(b0, b1, b2, b3) >> 16) as u8 == b1,
        (be32_val(b0, b1, b2, b3) >> 8) as u8 == b2,
        be32_val(b0, b1, b2, b3) as u8 == b3,
{
    assert(((((b0 as u32) << 24) | ((b1 as u32) << 16) | ((b2 as u32) << 8) | (b3 as u32)) >> 24) as u8
        == b0 && ((((b0 as u32) << 24) | ((b1 as u32) << 16) | ((b2 as u32) << 8) | (b3 as u32))
        >> 16) as u8 == b1 && ((((b0 as u32) << 24) | ((b1 as u32) << 16) | ((b2 as u32) << 8) | (
    b3 as u32)) >> 8) as u8 == b2 && (((b0 as u32) << 24) | ((b1 as u32) << 16) | ((b2 as u32)
        << 8) | (b3 as u32)) as u8 == b3) by (bit_vector);
}

/// One frame: the code byte, the payload length, then the payload verbatim.
pub open spec fn spec_frame(code: u8, payload: Seq<u8>) -> Seq<u8> {
    seq![code] + be32(payload.len() as u32) + payload
}

/// Appends one frame carrying `payload` under `code` to `out`.
pub fn write_frame(out: &mut Vec<u8>, code: u8, payload: &Vec<u8>)
    requires
        payload@.len() <= u32::MAX,
    ensures
        final(out)@ == old(out)@ + spec_frame(code, payload@),
{
    out.push(code);
    let n = payload.len() as u32;
    out.push((n >> 24) as u8);
    out.push((n >> 16) as u8);
    out.push((n >> 8) as u8);
    out.push(n as u8);
    let mut i: usize = 0;
    let ghost mid = out@;
    while i < payload.len()
        invariant
            i <= payload@.len(),
            out@ == mid + payload@.take(i as int),
        decreases payload@.len() - i,
    {
        out.push(payload[i]);
        proof {
            assert(payload@.take(i + 1) =~= payload@.take(i as int).push(payload@[i as int]));
        }
        i = i + 1;
    }
    proof {
        assert(payload@.take(payload@.len() as int) =~= payload@);
        assert(out@ =~= old(out)@ + spec_frame(code, payload@));
    }
}

/// Reads the frame that starts at `start` in `buf`: its code, its payload,
/// and the position just past it. Fails exactly when no complete frame is
/// there, which covers every truncated transmission.
pub fn read_frame(buf: &Vec<u8>, start: usize) -> (r: Option<(u8, Vec<u8>, usize)>)
    requires
        start <= buf@.len(),
    ensures
        r matches Some(t) ==> start + 5 + t.1@.len() == t.2 && t.2 <= buf@.len() && t.1@.len()
            <= u32::MAX && buf@.subrange(start as int, t.2 as int) == spec_frame(t.0, t.1@),
        forall|c: u8, pl: Seq<u8>|
            pl.len() <= u32::MAX && (#[trigger] spec_frame(c, pl)).is_prefix_of(
                buf@.skip(start as int),
            ) ==> (r matches Some(t) && t.0 == c && t.1@ == pl && t.2 == start + 5 + pl.len()),
{
    let ghost tail = buf@.skip(start as int);
    if buf.len() - start < 5 {
        proof {
            assert forall|c: u8, pl: Seq<u8>|
                pl.len() <= u32::MAX && (#[trigger] spec_frame(c, pl)).is_prefix_of(
                    tail,
                ) implies false by {
                assert(spec_frame(c, pl).len() >= 5);
            }
        }
        return None;
    }
    let code = buf[start];
    let b0 = buf[start + 1];
    let b1 = buf[start + 2];
    let b2 = buf[start + 3];
    let b3 = buf[start + 4];
    let n = be32_val_exec(b0, b1, b2, b3);
    let m = n as usize;
    proof {
        assert forall|c: u8, pl: Seq<u8>|
            pl.len() <= u32::MAX && (#[trigger] spec_frame(c, pl)).is_prefix_of(tail) implies c
            == code && pl.len() == m by {
            assert(spec_frame(c, pl)[0] == c);
            assert(spec_frame(c, pl)[1] == (pl.len() as u32 >> 24) as u8);
            assert(spec_frame(c, pl)[2] == (pl.len() as u32 >> 16) as u8);
            assert(spec_frame(c, pl)[3] == (pl.len() as u32 >> 8) as u8);
            assert(spec_frame(c, pl)[4] == pl.len() as u32 as u8);
            assert(tail[0] == buf@[start as int]);
            assert(tail[1] == buf@[start + 1]);
            assert(tail[2] == buf@[start + 2]);
            assert(tail[3] == buf@[start + 3]);
            assert(tail[4] == buf@[start + 4]);
            lemma_be32_val(pl.len() as u32);
            assert(be32_val(b0, b1, b2, b3) == pl.len() as u32);
        }
    }
    if buf.len() - (start + 5) < m {
        proof {
            assert forall|c: u8, pl: Seq<u8>|
                pl.len() <= u32::MAX && (#[trigger] spec_frame(c, pl)).is_prefix_of(
                    tail,
                ) implies false by {
                assert(spec_frame(c, pl).len() == 5 + pl.len());
                assert(5 + pl.len() <= tail.len());
            }
        }
        return None;
    }
    let mut payload: Vec<u8> = Vec::new();
    let mut i: usize = 0;
    while i < m
        invariant
            i <= m,
            start + 5 + m <= buf@.len(),
            buf@.len() <= usize::MAX,
            payload@ == buf@.subrange(start + 5, start + 5 + i),
        decreases m - i,
    {
        payload.push(buf[start + 5 + i]);
        proof {
            assert(buf@.subrange(start + 5, start + 5 + i + 1) =~= buf@.subrange(
                start + 5,
                start + 5 + i,
            ).push(buf@[start + 5 + i]));
        }
        i = i + 1;
    }
    let end = start + 5 + m;
    proof {
        assert(m as u32 == n);
        lemma_be32_bytes(b0, b1, b2, b3);
        assert(be32(payload@.len() as u32) =~= seq![b0, b1, b2, b3]);
        assert(buf@.subrange(start as int, end as int) =~= spec_frame(code, payload@));
        assert forall|c: u8, pl: Seq<u8>|
            pl.len() <= u32::MAX && (#[trigger] spec_frame(c, pl)).is_prefix_of(tail) implies pl
            == payload@ by {
            assert forall|k: int| 0 <= k < pl.len() implies pl[k] == payload@[k] by {
                assert(pl[k] == spec_frame(c, pl)[5 + k]);
                assert(spec_frame(c, pl)[5 + k] == tail[5 + k]);
                assert(tail[5 + k] == buf@[start + 5 + k]);
            }
            assert(pl =~= payload@);
        }
    }
    Some((code, payload, end))
}

/// The value of four big-endian bytes.
fn be32_val_exec(b0: u8, b1: u8, b2: u8, b3: u8) -> (r: u32)
    ensures
        r == be32_val(b0, b1, b2, b3),
{
    ((b0 as u32) << 24) | ((b1 as u32) << 16) | ((b2 as u32) << 8) | (b3 as u32)
}

/// The taxonomy of frame codes: the three request kinds, the success
/// response, and every other byte as an error frame carrying that byte.
#[derive(Clone, Copy, Debug, PartialEq, Eq, Structural)]
pub enum MessageCode {
    RequestQuery,
    RequestExec,
    RequestInsert,
    SuccessResponse,
    Error(u8),
}

/// An `Error` code never shadows one of the four request/response codes.
pub open spec fn wf_message_code(c: MessageCode) -> bool {
    match c {
        MessageCode::Error(n) => !(1 <= n <= 4),
        _ => true,
    }
}

/// The byte a message code is sent as.
pub open spec fn spec_code_to_u8(c: MessageCode) -> u8 {
    match c {
        MessageCode::RequestQuery => 1,
        MessageCode::RequestExec => 2,
        MessageCode::RequestInsert => 3,
        MessageCode::SuccessResponse => 4,
        MessageCode::Error(n) => n,
    }
}

/// The message code a received byte stands for.
pub open spec fn spec_code_from_u8(code: u8) -> MessageCode {
    if code == 1 {
        MessageCode::RequestQuery
    } else if code == 2 {
        MessageCode::RequestExec
    } else if code == 3 {
        MessageCode::RequestInsert
    } else if code == 4 {
        MessageCode::SuccessResponse
    } else {
        MessageCode::Error(code)
    }
}

impl MessageCode {
    /// The byte this code is sent as.
    pub fn to_u8(self) -> (r: u8)
        ensures
            r == spec_code_to_u8(self),
    {
        match self {
            MessageCode::RequestQuery => 1,
            MessageCode::RequestExec => 2,
            MessageCode::RequestInsert => 3,
            MessageCode::SuccessResponse => 4,
            MessageCode::Error(n) => n,
        }
    }

    /// The code a received byte stands for.
    pub fn from_u8(code: u8) -> (r: MessageCode)
        ensures
            r == spec_code_from_u8(code),
            wf_message_code(r),
    {
        if code == 1 {
            MessageCode::RequestQuery
        } else if code == 2 {
            MessageCode::RequestExec
        } else if code == 3 {
            MessageCode::RequestInsert
        } else if code == 4 {
            MessageCode::SuccessResponse
        } else {
            MessageCode::Error(code)
        }
    }
}

/// Sending any well-formed message code and reading the byte back yields the
/// original code, and reading any byte and sending the resulting code again
/// yields the original byte.
pub proof fn lemma_message_code_roundtrip(c: MessageCode, b: u8)
    requires
        wf_message_code(c),
    ensures
        spec_code_from_u8(spec_code_to_u8(c)) == c,
        spec_code_to_u8(spec_code_from_u8(b)) == b,
{
}

} // verus!
