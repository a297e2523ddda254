//! Reading a run of bytes as frame after frame.
//!
//! A scan decodes frames from the first byte on and stops at the first
//! place that holds no frame. Bytes that end inside a frame are an
//! unfinished write and end the scan quietly; bytes that are damaged end it
//! with the damage reported.

use vstd::prelude::*;
use crate::codec::{decode_frame, lemma_encoding_len, parse_frame, DecodeError, Frame, Record};
use crate::framing::{lemma_frame_canonical, lemma_frame_prefix_stable, lemma_frame_roundtrip};

verus! {

/// What a scan found.
pub struct Scan {
    /// The frames, in the order in which they lie.
    pub frames: Seq<Frame>,
    /// The number of bytes that the frames take.
    pub valid_len: nat,
    /// Whether the scan stopped at damaged bytes.
    pub corrupt: bool,
}

impl Scan {
    /// Whether the scan took all `len` bytes and met no damage.
    pub open spec fn whole(self, len: nat) -> bool {
        !self.corrupt && self.valid_len == len
    }
}

/// The scan of `b`: the frame at the start of `b`, then the scan of what
/// lies behind that frame. A frame is never empty and never longer than
/// the bytes it was read from, so the branch that says otherwise is never
/// taken; it is there for the recursion to end in plain sight.
pub open spec fn scan(b: Seq<u8>) -> Scan
    decreases b.len(),
{
    match parse_frame(b) {
        Ok((f, n)) => {
            if 0 < n <= b.len() {
                let rest = scan(b.skip(n as int));
                Scan {
                    frames: seq![f] + rest.frames,
                    valid_len: n + rest.valid_len,
                    corrupt: rest.corrupt,
                }
            } else {
                Scan { frames: Seq::empty(), valid_len: 0, corrupt: true }
            }
        },
        Err(DecodeError::Truncated) => Scan { frames: Seq::empty(), valid_len: 0, corrupt: false },
        Err(DecodeError::Corrupt) => Scan { frames: Seq::empty(), valid_len: 0, corrupt: true },
    }
}

/// The records among `frames`, in their order.
pub open spec fn records_of(frames: Seq<Frame>) -> Seq<Record>
    decreases frames.len(),
{
    if frames.len() == 0 {
        Seq::empty()
    } else {
        let before = records_of(frames.drop_last());
        match frames.last() {
            Frame::Record(r) => before.push(r),
            _ => before,
        }
    }
}

/// The bytes of `frames`, one frame after the other.
pub open spec fn encode_all(frames: Seq<Frame>) -> Seq<u8>
    decreases frames.len(),
{
    if frames.len() == 0 {
        Seq::empty()
    } else {
        encode_all(frames.drop_last()) + frames.last().encoding()
    }
}

/// A scan never takes more bytes than there are.
pub proof fn lemma_scan_bounded(b: Seq<u8>)
    ensures
        scan(b).valid_len <= b.len(),
    decreases b.len(),
{
    if parse_frame(b) is Ok {
        let n = parse_frame(b)->Ok_0.1;
        if 0 < n <= b.len() {
            lemma_scan_bounded(b.skip(n as int));
        }
    }
}

/// Behind bytes that scan whole, a scan goes on as if it began there.
pub proof fn lemma_scan_concat(a: Seq<u8>, c: Seq<u8>)
    requires
        scan(a).whole(a.len()),
    ensures
        scan(a + c) == (Scan {
            frames: scan(a).frames + scan(c).frames,
            valid_len: a.len() + scan(c).valid_len,
            corrupt: scan(c).corrupt,
        }),
    decreases a.len(),
{
    if a.len() == 0 {
        assert(a =~= Seq::<u8>::empty());
        lemma_scan_empty();
        assert(a + c =~= c);
        assert(scan(a).frames + scan(c).frames =~= scan(c).frames);
    } else {
        assert(parse_frame(a) is Ok) by {
            if parse_frame(a) is Err {
                assert(scan(a).valid_len == 0);
            }
        }
        lemma_frame_canonical(a);
        let (f, n) = parse_frame(a)->Ok_0;
        let tail = a.skip(n as int);
        lemma_frame_prefix_stable(a, c);
        assert((a + c).skip(n as int) =~= tail + c);
        lemma_scan_concat(tail, c);
        assert(seq![f] + (scan(tail).frames + scan(c).frames) =~= (seq![f] + scan(tail).frames)
            + scan(c).frames);
    }
}

/// The bytes of one frame scan as that frame.
pub proof fn lemma_scan_frame(f: Frame)
    ensures
        scan(f.encoding()) == (Scan { frames: seq![f], valid_len: f.encoded_len(), corrupt: false }),
{
    let b = f.encoding();
    lemma_frame_roundtrip(f, Seq::empty());
    lemma_encoding_len(f);
    assert(b + Seq::<u8>::empty() =~= b);
    let tail = b.skip(f.encoded_len() as int);
    assert(tail =~= Seq::<u8>::empty());
    lemma_scan_empty();
    assert(seq![f] + Seq::<Frame>::empty() =~= seq![f]);
}

/// No bytes scan as no frames.
pub proof fn lemma_scan_empty()
    ensures
        scan(Seq::empty()) == (Scan { frames: Seq::empty(), valid_len: 0, corrupt: false }),
{
    reveal(parse_frame);
}

/// A frame written behind bytes that scan whole is found as their last
/// frame.
pub proof fn lemma_scan_push(a: Seq<u8>, f: Frame)
    requires
        scan(a).whole(a.len()),
    ensures
        scan(a + f.encoding()) == (Scan {
            frames: scan(a).frames.push(f),
            valid_len: a.len() + f.encoded_len(),
            corrupt: false,
        }),
{
    lemma_scan_concat(a, f.encoding());
    lemma_scan_frame(f);
    assert(scan(a).frames + seq![f] =~= scan(a).frames.push(f));
}

/// Bytes that scan whole are the encodings of the frames found.
pub proof fn lemma_scan_whole_is_encoding(b: Seq<u8>)
    requires
        scan(b).whole(b.len()),
    ensures
        b == encode_all(scan(b).frames),
    decreases b.len(),
{
    if b.len() == 0 {
        assert(b =~= Seq::<u8>::empty());
        lemma_scan_empty();
        assert(b =~= encode_all(scan(b).frames));
    } else {
        assert(parse_frame(b) is Ok) by {
            if parse_frame(b) is Err {
                assert(scan(b).valid_len == 0);
            }
        }
        lemma_frame_canonical(b);
        let (f, n) = parse_frame(b)->Ok_0;
        let tail = b.skip(n as int);
        assert(scan(b).frames == seq![f] + scan(tail).frames);
        lemma_scan_whole_is_encoding(tail);
        lemma_encode_all_prepend(f, scan(tail).frames);
        assert(b =~= b.subrange(0, n as int) + tail);
    }
}

/// The bytes of a frame followed by those of more frames are the bytes of
/// all of them.
pub proof fn lemma_encode_all_prepend(f: Frame, rest: Seq<Frame>)
    ensures
        encode_all(seq![f] + rest) == f.encoding() + encode_all(rest),
    decreases rest.len(),
{
    let all = seq![f] + rest;
    if rest.len() == 0 {
        assert(all.drop_last() =~= rest);
        assert(all.last() == f);
        assert(encode_all(all) == encode_all(rest) + f.encoding());
        assert(encode_all(rest) =~= Seq::<u8>::empty());
        assert(encode_all(all) =~= f.encoding() + encode_all(rest));
    } else {
        assert(all.drop_last() =~= seq![f] + rest.drop_last());
        assert(all.last() == rest.last());
        lemma_encode_all_prepend(f, rest.drop_last());
        assert(encode_all(all) == encode_all(all.drop_last()) + rest.last().encoding());
        assert(encode_all(rest) == encode_all(rest.drop_last()) + rest.last().encoding());
        assert(encode_all(all) =~= f.encoding() + encode_all(rest));
    }
}

/// The bytes that a scan took scan whole, as the same frames: what lies
/// behind them changes nothing of what was found.
pub proof fn lemma_scan_valid_prefix(b: Seq<u8>)
    ensures
        scan(b).valid_len <= b.len(),
        scan(b.take(scan(b).valid_len as int)) == (Scan {
            frames: scan(b).frames,
            valid_len: scan(b).valid_len,
            corrupt: false,
        }),
    decreases b.len(),
{
    lemma_scan_bounded(b);
    let taken = b.take(scan(b).valid_len as int);
    if parse_frame(b) is Ok && 0 < parse_frame(b)->Ok_0.1 <= b.len() {
        let (f, n) = parse_frame(b)->Ok_0;
        let tail = b.skip(n as int);
        let kept = tail.take(scan(tail).valid_len as int);
        lemma_scan_valid_prefix(tail);
        lemma_frame_canonical(b);
        lemma_scan_frame(f);
        lemma_scan_concat(f.encoding(), kept);
        assert(taken =~= f.encoding() + kept);
    } else {
        assert(taken =~= Seq::<u8>::empty());
        lemma_scan_empty();
    }
}

/// Whether a scan of `log` that has found the frames `seen` in the first
/// `pos` bytes finds behind them what a scan from `pos` on finds.
#[verifier::opaque]
pub closed spec fn scan_resumes(log: Seq<u8>, seen: Seq<Frame>, pos: int) -> bool {
    let rest = scan(log.skip(pos));
    scan(log) == (Scan {
        frames: seen + rest.frames,
        valid_len: (pos + rest.valid_len) as nat,
        corrupt: rest.corrupt,
    })
}

/// A scan begins with nothing found, at offset 0.
pub proof fn lemma_scan_begins(log: Seq<u8>)
    ensures
        scan_resumes(log, Seq::empty(), 0),
{
    reveal(scan_resumes);
    assert(log.skip(0) =~= log);
    assert(Seq::<Frame>::empty() + scan(log).frames =~= scan(log).frames);
}

/// A scan that meets a frame goes on behind it, with the frame found.
pub proof fn lemma_scan_goes_on(log: Seq<u8>, seen: Seq<Frame>, pos: int, frame: Frame, len: nat)
    requires
        0 <= pos <= log.len(),
        scan_resumes(log, seen, pos),
        parse_frame(log.skip(pos)) == Ok::<(Frame, nat), DecodeError>((frame, len)),
    ensures
        len == frame.encoded_len(),
        0 < len,
        pos + len <= log.len(),
        scan_resumes(log, seen.push(frame), pos + len),
{
    reveal(scan_resumes);
    lemma_frame_canonical(log.skip(pos));
    lemma_encoding_len(frame);
    let rest = scan(log.skip(pos + len));
    assert(log.skip(pos).skip(len as int) =~= log.skip(pos + len));
    assert(seen.push(frame) + rest.frames =~= seen + (seq![frame] + rest.frames));
}

/// What a scan has found so far is the beginning of what it finds in all.
pub proof fn lemma_scan_found_so_far(log: Seq<u8>, seen: Seq<Frame>, pos: int)
    requires
        scan_resumes(log, seen, pos),
    ensures
        scan(log).frames == seen + scan(log.skip(pos)).frames,
{
    reveal(scan_resumes);
}

/// A scan that meets no frame ends, with what it has found.
pub proof fn lemma_scan_ends(log: Seq<u8>, seen: Seq<Frame>, pos: int, e: DecodeError)
    requires
        0 <= pos <= log.len(),
        scan_resumes(log, seen, pos),
        parse_frame(log.skip(pos)) == Err::<(Frame, nat), DecodeError>(e),
    ensures
        scan(log) == (Scan {
            frames: seen,
            valid_len: pos as nat,
            corrupt: e == DecodeError::Corrupt,
        }),
{
    reveal(scan_resumes);
    assert(seen + Seq::<Frame>::empty() =~= seen);
}

/// Reads `buf` as frames from end to end and returns the records among
/// them. Bytes that end inside a frame give `Truncated`, damaged bytes give
/// `Corrupt`.
pub fn read_records(buf: &[u8]) -> (r: Result<Vec<Record>, DecodeError>)
    ensures
        match r {
            Ok(v) => scan(buf@).whole(buf@.len()) && v@ == records_of(scan(buf@).frames),
            Err(DecodeError::Corrupt) => scan(buf@).corrupt,
            Err(DecodeError::Truncated) => !scan(buf@).corrupt && scan(buf@).valid_len
                < buf@.len(),
        },
{
    let mut out: Vec<Record> = Vec::new();
    let mut pos: usize = 0;
    let ghost mut seen: Seq<Frame> = Seq::empty();
    proof {
        lemma_scan_begins(buf@);
    }
    loop
        invariant
            pos <= buf.len(),
            out@ == records_of(seen),
            scan_resumes(buf@, seen, pos as int),
        decreases buf.len() - pos,
    {
        match decode_frame(buf, pos) {
            Ok((frame, next)) => {
                proof {
                    lemma_scan_goes_on(buf@, seen, pos as int, frame, (next - pos) as nat);
                    assert(seen.push(frame).drop_last() =~= seen);
                    seen = seen.push(frame);
                }
                if let Frame::Record(record) = frame {
                    out.push(record);
                }
                pos = next;
            },
            Err(e) => {
                proof {
                    lemma_scan_ends(buf@, seen, pos as int, e);
                }
                match e {
                    DecodeError::Corrupt => {
                        return Err(DecodeError::Corrupt);
                    },
                    DecodeError::Truncated => {
                        if pos == buf.len() {
                            return Ok(out);
                        } else {
                            return Err(DecodeError::Truncated);
                        }
                    },
                }
            },
        }
    }
}

} // verus!
