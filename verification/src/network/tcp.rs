//! Length-prefixed frames on a byte stream.
use vstd::prelude::*;
use vstd::slice::slice_subrange;

verus! {

/// The four bytes of a number below 2^32, most significant first.
pub open spec fn be_bytes(n: int) -> Seq<u8> {
    seq![
        (n / 0x100_0000) as u8,
        (n / 0x1_0000 % 0x100) as u8,
        (n / 0x100 % 0x100) as u8,
        (n % 0x100) as u8,
    ]
}

/// The number that four bytes stand for, most significant first.
pub open spec fn be_value(b: Seq<u8>) -> int {
    b[0] * 0x100_0000 + b[1] * 0x1_0000 + b[2] * 0x100 + b[3]
}

/// A payload with its length in front. The length is written in 32 bits; more are cut off.
pub open spec fn frame(payload: Seq<u8>) -> Seq<u8> {
    be_bytes(payload.len() as int % 0x1_0000_0000) + payload
}

/// The payload of the first frame of a stream, where that frame is complete.
pub open spec fn first_frame(stream: Seq<u8>) -> Option<Seq<u8>> {
    if stream.len() < 4 || stream.len() < 4 + be_value(stream) {
        None
    } else {
        Some(stream.subrange(4, 4 + be_value(stream)))
    }
}

/// Writes a payload as a frame at the end of a stream.
pub fn write_frame(stream: &mut Vec<u8>, payload: &[u8])
    ensures
        final(stream)@ == old(stream)@ + frame(payload@),
{
    let n: u64 = payload.len() as u64 % 0x1_0000_0000;
    let ghost start = stream@;
    stream.push((n / 0x100_0000) as u8);
    stream.push((n / 0x1_0000 % 0x100) as u8);
    stream.push((n / 0x100 % 0x100) as u8);
    stream.push((n % 0x100) as u8);
    assert(stream@ =~= start + be_bytes(n as int));
    let ghost head = stream@;
    for i in 0..payload.len()
        invariant
            stream@ == head + payload@.take(i as int),
    {
        stream.push(payload[i]);
        assert(stream@ =~= head + payload@.take(i + 1));
    }
    assert(payload@.take(payload@.len() as int) =~= payload@);
    assert(stream@ =~= start + frame(payload@));
}

/// The bytes from one position to another.
fn copy_bytes(bytes: &Vec<u8>, from: usize, to: usize) -> (r: Vec<u8>)
    requires
        from <= to <= bytes@.len(),
    ensures
        r@ == bytes@.subrange(from as int, to as int),
{
    let part = slice_subrange(bytes.as_slice(), from, to);
    let mut out: Vec<u8> = Vec::new();
    for i in 0..part.len()
        invariant
            out@ == part@.take(i as int),
    {
        out.push(part[i]);
        assert(out@ =~= part@.take(i + 1));
    }
    assert(part@.take(part@.len() as int) =~= part@);
    out
}

/// Takes the first frame off a stream and gives its payload. Where the frame is not complete yet,
/// the stream stays as it is.
pub fn read_frame(stream: &mut Vec<u8>) -> (r: Option<Vec<u8>>)
    ensures
        match r {
            Some(payload) => {
                &&& first_frame(old(stream)@) == Some(payload@)
                &&& final(stream)@ == old(stream)@.skip(4 + payload@.len() as int)
            },
            None => first_frame(old(stream)@) is None && final(stream)@ == old(stream)@,
        },
{
    let have: usize = stream.len();
    if have < 4 {
        return None;
    }
    let n: u64 = stream[0] as u64 * 0x100_0000 + stream[1] as u64 * 0x1_0000 + stream[2] as u64
        * 0x100 + stream[3] as u64;
    if ((have - 4) as u64) < n {
        return None;
    }
    let end: usize = 4 + n as usize;
    let payload = copy_bytes(stream, 4, end);
    let rest = copy_bytes(stream, end, have);
    assert(rest@ =~= stream@.skip(end as int));
    *stream = rest;
    Some(payload)
}

/// Four bytes stand for the number that they were made of.
proof fn lemma_bytes_back(n: int)
    requires
        0 <= n < 0x1_0000_0000,
    ensures
        be_value(be_bytes(n)) == n,
{
}

/// What was written as a frame is read back as it was, and what follows it stays on the stream.
/// A payload must be shorter than 2^32 bytes.
pub proof fn frames_read_back(payload: Seq<u8>, rest: Seq<u8>)
    requires
        payload.len() < 0x1_0000_0000,
    ensures
        first_frame(frame(payload) + rest) == Some(payload),
        (frame(payload) + rest).skip(4 + payload.len() as int) == rest,
{
    let s = frame(payload) + rest;
    let n = payload.len() as int;
    assert(s[0] == be_bytes(n)[0] && s[1] == be_bytes(n)[1] && s[2] == be_bytes(n)[2] && s[3]
        == be_bytes(n)[3]);
    lemma_bytes_back(n);
    assert(be_value(s) == n);
    assert(s.subrange(4, 4 + n) =~= payload);
    assert(s.skip(4 + n) =~= rest);
}

/// As long as a frame is not complete, there is nothing to read.
pub proof fn partial_frames_wait(payload: Seq<u8>, arrived: int)
    requires
        payload.len() < 0x1_0000_0000,
        0 <= arrived < 4 + payload.len(),
    ensures
        first_frame(frame(payload).take(arrived)) is None,
{
    let s = frame(payload).take(arrived);
    let n = payload.len() as int;
    if arrived >= 4 {
        assert(s[0] == be_bytes(n)[0] && s[1] == be_bytes(n)[1] && s[2] == be_bytes(n)[2] && s[3]
            == be_bytes(n)[3]);
        lemma_bytes_back(n);
        assert(be_value(s) == n);
    }
}

/// A frame is the length of its payload in four bytes, the most significant first, and then the
/// payload; writing it leaves what is on the stream before it.
pub proof fn frames_start_with_their_length(stream: &mut Vec<u8>, payload: &[u8])
    requires
        payload@.len() < 0x1_0000_0000,
        call_ensures(write_frame, (stream, payload), ()),
    ensures
        ({
            let was = old(stream)@;
            let next = final(stream)@;
            let n = was.len() as int;
            &&& next.len() == n + 4 + payload@.len()
            &&& next.take(n) == was
            &&& next.skip(n + 4) == payload@
            &&& next[n] * 0x100_0000 + next[n + 1] * 0x1_0000 + next[n + 2] * 0x100 + next[n + 3]
                == payload@.len()
        }),
{
    let was = old(stream)@;
    let next = final(stream)@;
    let n = was.len() as int;
    let size = payload@.len() as int;
    assert(next.take(n) =~= was);
    assert(next.skip(n + 4) =~= payload@);
    assert(next[n] == be_bytes(size)[0] && next[n + 1] == be_bytes(size)[1] && next[n + 2]
        == be_bytes(size)[2] && next[n + 3] == be_bytes(size)[3]);
    lemma_bytes_back(size);
}

/// What is read off a stream is as many bytes behind the four bytes of a length as that length
/// says, and what follows stays on the stream; where not all of them are there, nothing is read and
/// the stream stays as it is.
pub proof fn frames_are_read_by_their_length(stream: &mut Vec<u8>, r: Option<Vec<u8>>)
    requires
        call_ensures(read_frame, (stream,), r),
    ensures
        ({
            let was = old(stream)@;
            let next = final(stream)@;
            let n = was[0] * 0x100_0000 + was[1] * 0x1_0000 + was[2] * 0x100 + was[3];
            if was.len() >= 4 && was.len() >= 4 + n {
                &&& r is Some
                &&& r->0@.len() == n
                &&& was == was.take(4) + r->0@ + next
            } else {
                r is None && next == was
            }
        }),
{
    let was = old(stream)@;
    if let Some(payload) = r {
        let n = be_value(was);
        assert(was.take(4) + payload@ + was.skip(4 + n) =~= was);
    }
}

} // verus!
