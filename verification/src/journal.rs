use vstd::prelude::*;

verus! {

/// The four bytes of `n`, least significant first.
pub open spec fn le32(n: u32) -> Seq<u8> {
    seq![
        (n & 0xff) as u8,
        ((n >> 8) & 0xff) as u8,
        ((n >> 16) & 0xff) as u8,
        ((n >> 24) & 0xff) as u8,
    ]
}

/// The number whose four bytes, least significant first, are `b0` to `b3`.
pub open spec fn le32_value(b0: u8, b1: u8, b2: u8, b3: u8) -> u32 {
    (b0 as u32) | ((b1 as u32) << 8) | ((b2 as u32) << 16) | ((b3 as u32) << 24)
}

/// One journal frame: the length of the payload in four bytes, least
/// significant first, then the payload.
pub open spec fn frame_of(payload: Seq<u8>) -> Seq<u8> {
    le32(payload.len() as u32) + payload
}

/// The frames of `payloads` one after the other.
pub open spec fn framed(payloads: Seq<Seq<u8>>) -> Seq<u8>
    decreases payloads.len(),
{
    if payloads.len() == 0 {
        Seq::empty()
    } else {
        frame_of(payloads[0]) + framed(payloads.drop_first())
    }
}

/// The payloads of the whole frames at the start of `bytes`. Reading ends
/// where the bytes end, be it between frames, within a length, or within a
/// payload.
#[verifier::opaque]
pub open spec fn parsed(bytes: Seq<u8>) -> Seq<Seq<u8>>
    decreases bytes.len(),
{
    if bytes.len() < 4 {
        Seq::empty()
    } else {
        let n = le32_value(bytes[0], bytes[1], bytes[2], bytes[3]) as int;
        if bytes.len() < 4 + n {
            Seq::empty()
        } else {
            seq![bytes.subrange(4, 4 + n)] + parsed(bytes.subrange(4 + n, bytes.len() as int))
        }
    }
}

/// The four bytes of a number give the number back.
pub proof fn lemma_le32_round_trip(n: u32)
    ensures
        le32_value(le32(n)[0], le32(n)[1], le32(n)[2], le32(n)[3]) == n,
{
    let b0 = (n & 0xff) as u8;
    let b1 = ((n >> 8) & 0xff) as u8;
    let b2 = ((n >> 16) & 0xff) as u8;
    let b3 = ((n >> 24) & 0xff) as u8;
    assert(((n & 0xff) as u8 as u32) | ((((n >> 8) & 0xff) as u8 as u32) << 8) | ((((n >> 16)
        & 0xff) as u8 as u32) << 16) | ((((n >> 24) & 0xff) as u8 as u32) << 24) == n)
        by (bit_vector);
}

/// A frame in front of other bytes is read as its payload, and reading
/// goes on behind it.
pub proof fn lemma_parsed_frame(payload: Seq<u8>, rest: Seq<u8>)
    requires
        payload.len() <= u32::MAX,
    ensures
        parsed(frame_of(payload) + rest) == seq![payload] + parsed(rest),
{
    let bytes = frame_of(payload) + rest;
    let n = payload.len() as u32;
    reveal(parsed);
    lemma_le32_round_trip(n);
    assert(bytes[0] == le32(n)[0]);
    assert(bytes[1] == le32(n)[1]);
    assert(bytes[2] == le32(n)[2]);
    assert(bytes[3] == le32(n)[3]);
    assert(bytes.subrange(4, 4 + n) =~= payload);
    assert(bytes.subrange(4 + n, bytes.len() as int) =~= rest);
}

/// Reading a journal gives back the payloads that were written to it, in
/// order.
pub proof fn law_journal_round_trip(payloads: Seq<Seq<u8>>)
    requires
        forall|i: int| 0 <= i < payloads.len() ==> (#[trigger] payloads[i]).len() <= u32::MAX,
    ensures
        parsed(framed(payloads)) == payloads,
    decreases payloads.len(),
{
    if payloads.len() == 0 {
        reveal(parsed);
        assert(parsed(framed(payloads)) =~= payloads);
    } else {
        let rest = payloads.drop_first();
        assert forall|i: int| 0 <= i < rest.len() implies (#[trigger] rest[i]).len()
            <= u32::MAX by {
            assert(rest[i] == payloads[i + 1]);
        }
        law_journal_round_trip(rest);
        lemma_parsed_frame(payloads[0], framed(rest));
        assert(seq![payloads[0]] + rest =~= payloads);
    }
}

/// Appends the frame of `payload` to `out`.
pub fn write_frame(out: &mut Vec<u8>, payload: &Vec<u8>)
    requires
        payload@.len() <= u32::MAX,
    ensures
        final(out)@ == old(out)@ + frame_of(payload@),
{
    let n: u32 = payload.len() as u32;
    out.push((n & 0xff) as u8);
    out.push(((n >> 8) & 0xff) as u8);
    out.push(((n >> 16) & 0xff) as u8);
    out.push(((n >> 24) & 0xff) as u8);
    assert(out@ =~= old(out)@ + le32(n));
    let len: usize = payload.len();
    let mut i: usize = 0;
    while i < len
        invariant
            i <= len,
            len == payload@.len(),
            out@ == old(out)@ + le32(n) + payload@.subrange(0, i as int),
        decreases len - i,
    {
        out.push(payload[i]);
        assert(payload@.subrange(0, i + 1) =~= payload@.subrange(0, i as int).push(
            payload@[i as int],
        ));
        assert(out@ =~= old(out)@ + le32(n) + payload@.subrange(0, i + 1));
        i = i + 1;
    }
    assert(payload@.subrange(0, len as int) =~= payload@);
    assert(out@ =~= old(out)@ + frame_of(payload@));
}

/// The views of the vectors of `frames`.
pub open spec fn views(frames: Seq<Vec<u8>>) -> Seq<Seq<u8>> {
    Seq::new(frames.len(), |i: int| frames[i]@)
}

/// Reads the payloads of the whole frames at the start of `bytes`.
pub fn read_frames(bytes: &Vec<u8>) -> (frames: Vec<Vec<u8>>)
    ensures
        views(frames@) == parsed(bytes@),
{
    let total: usize = bytes.len();
    let mut frames: Vec<Vec<u8>> = Vec::new();
    let mut at: usize = 0;
    let mut open: bool = true;
    proof {
        assert(bytes@.subrange(0, total as int) =~= bytes@);
        assert(views(frames@) =~= Seq::<Seq<u8>>::empty());
        assert(views(frames@) + parsed(bytes@) =~= parsed(bytes@));
    }
    while open
        invariant
            at <= total,
            total == bytes@.len(),
            parsed(bytes@) == views(frames@) + (if open {
                parsed(bytes@.subrange(at as int, total as int))
            } else {
                Seq::<Seq<u8>>::empty()
            }),
        decreases (total - at) + (if open { 1int } else { 0int }),
    {
        let ghost rest = bytes@.subrange(at as int, total as int);
        proof {
            reveal(parsed);
        }
        if total - at < 4 {
            open = false;
        } else {
            let b0: u8 = bytes[at];
            let b1: u8 = bytes[at + 1];
            let b2: u8 = bytes[at + 2];
            let b3: u8 = bytes[at + 3];
            let n: u32 = (b0 as u32) | ((b1 as u32) << 8) | ((b2 as u32) << 16) | ((b3 as u32)
                << 24);
            assert(n == le32_value(rest[0], rest[1], rest[2], rest[3]));
            if ((total - at - 4) as u64) < (n as u64) {
                open = false;
            } else {
                let len: usize = n as usize;
                let mut payload: Vec<u8> = Vec::new();
                let mut i: usize = 0;
                while i < len
                    invariant
                        i <= len,
                        at + 4 + len <= total,
                        total == bytes@.len(),
                        payload@ == bytes@.subrange(at + 4, at + 4 + i),
                    decreases len - i,
                {
                    payload.push(bytes[at + 4 + i]);
                    assert(bytes@.subrange(at + 4, at + 4 + i + 1) =~= bytes@.subrange(
                        at + 4,
                        at + 4 + i,
                    ).push(bytes@[at + 4 + i]));
                    i = i + 1;
                }
                proof {
                    assert(rest.subrange(4, 4 + n) =~= payload@);
                    assert(rest.subrange(4 + n, rest.len() as int) =~= bytes@.subrange(
                        at + 4 + len,
                        total as int,
                    ));
                    assert(views(frames@.push(payload)) =~= views(frames@) + seq![payload@]);
                }
                frames.push(payload);
                at = at + 4 + len;
                proof {
                    assert(parsed(bytes@) =~= views(frames@) + parsed(
                        bytes@.subrange(at as int, total as int),
                    ));
                }
            }
        }
    }
    proof {
        assert(views(frames@) + Seq::<Seq<u8>>::empty() =~= views(frames@));
    }
    frames
}

} // verus!
