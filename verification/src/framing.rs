//! The log file's framing: each record's bytes follow their length, four
//! bytes, most significant first. Reading stops at a record cut short.
use vstd::prelude::*;

verus! {

/// The four bytes of `n`, most significant first.
pub open spec fn length_bytes(n: u32) -> Seq<u8> {
    seq![(n >> 24u32) as u8, (n >> 16u32) as u8, (n >> 8u32) as u8, n as u8]
}

/// The number four bytes spell, most significant first.
pub open spec fn length_of(b0: u8, b1: u8, b2: u8, b3: u8) -> u32 {
    ((b0 as u32) << 24u32) | ((b1 as u32) << 16u32) | ((b2 as u32) << 8u32) | (b3 as u32)
}

/// The length a frame starting `data` announces (`data` holds four bytes
/// at least).
pub open spec fn announced(data: Seq<u8>) -> int {
    length_of(data[0], data[1], data[2], data[3]) as int
}

/// One record framed: its length, then its bytes.
pub open spec fn frame_of(bytes: Seq<u8>) -> Seq<u8> {
    length_bytes(bytes.len() as u32) + bytes
}

/// Records framed one after the other.
pub open spec fn framed(recs: Seq<Seq<u8>>) -> Seq<u8>
    decreases recs.len(),
{
    if recs.len() == 0 {
        Seq::empty()
    } else {
        frame_of(recs[0]) + framed(recs.drop_first())
    }
}

/// Whether `data` starts with a frame cut short: fewer than four bytes, or
/// fewer bytes than its length announces.
pub open spec fn is_cut_short(data: Seq<u8>) -> bool {
    data.len() < 4 || data.len() - 4 < announced(data)
}

/// The records framed in `data`, in order, up to the end or to a frame
/// cut short.
pub open spec fn frames_of(data: Seq<u8>) -> Seq<Seq<u8>>
    decreases data.len(),
{
    if is_cut_short(data) {
        Seq::empty()
    } else {
        let n = announced(data);
        seq![data.subrange(4, 4 + n)] + frames_of(data.subrange(4 + n, data.len() as int))
    }
}

proof fn lemma_length_round_trip(n: u32)
    ensures
        length_of((n >> 24u32) as u8, (n >> 16u32) as u8, (n >> 8u32) as u8, n as u8) == n,
{
    assert(((((n >> 24u32) as u8) as u32) << 24u32) | ((((n >> 16u32) as u8) as u32) << 16u32) | ((((
    n >> 8u32) as u8) as u32) << 8u32) | ((n as u8) as u32) == n) by (bit_vector);
}

/// Reading back records framed one after the other gives the records, and
/// then what the bytes after them hold.
pub proof fn lemma_frames_round_trip(recs: Seq<Seq<u8>>, tail: Seq<u8>)
    requires
        forall|i: int| 0 <= i < recs.len() ==> (#[trigger] recs[i]).len() <= u32::MAX,
    ensures
        frames_of(framed(recs) + tail) == recs + frames_of(tail),
    decreases recs.len(),
{
    if recs.len() == 0 {
        assert(framed(recs) + tail =~= tail);
        assert(recs + frames_of(tail) =~= frames_of(tail));
    } else {
        let r0 = recs[0];
        let rest = recs.drop_first();
        assert forall|i: int| 0 <= i < rest.len() implies (#[trigger] rest[i]).len() <= u32::MAX by {
            assert(rest[i] == recs[i + 1]);
        }
        lemma_frames_round_trip(rest, tail);
        let data = framed(recs) + tail;
        let after = framed(rest) + tail;
        let n = r0.len() as u32;
        assert(data =~= length_bytes(n) + r0 + after);
        lemma_length_round_trip(n);
        assert(announced(data) == r0.len());
        assert(!is_cut_short(data));
        assert(data.subrange(4, 4 + r0.len() as int) =~= r0);
        assert(data.subrange(4 + r0.len() as int, data.len() as int) =~= after);
        assert(recs + frames_of(tail) =~= seq![r0] + (rest + frames_of(tail)));
    }
}

/// A record cut short at the end of the log is dropped: reading back
/// records framed one after the other, followed by such a tail, gives just
/// the records.
pub proof fn lemma_cut_short_tail_dropped(recs: Seq<Seq<u8>>, tail: Seq<u8>)
    requires
        forall|i: int| 0 <= i < recs.len() ==> (#[trigger] recs[i]).len() <= u32::MAX,
        is_cut_short(tail),
    ensures
        frames_of(framed(recs) + tail) == recs,
{
    lemma_frames_round_trip(recs, tail);
    assert(recs + frames_of(tail) =~= recs);
}

/// Frames one record's bytes for the log: its length, four bytes, most
/// significant first, then the bytes.
pub fn frame_record(bytes: &Vec<u8>) -> (r: Vec<u8>)
    requires
        bytes@.len() <= u32::MAX,
    ensures
        r@ == frame_of(bytes@),
{
    let n = bytes.len() as u32;
    let mut r: Vec<u8> = Vec::new();
    r.push((n >> 24u32) as u8);
    r.push((n >> 16u32) as u8);
    r.push((n >> 8u32) as u8);
    r.push(n as u8);
    let mut i: usize = 0;
    while i < bytes.len()
        invariant
            i <= bytes@.len(),
            r@ == length_bytes(n) + bytes@.take(i as int),
            n == bytes@.len() as u32,
        decreases bytes@.len() - i,
    {
        r.push(bytes[i]);
        proof {
            assert(bytes@.take(i + 1) =~= bytes@.take(i as int).push(bytes@[i as int]));
        }
        i = i + 1;
    }
    proof {
        assert(bytes@.take(bytes@.len() as int) =~= bytes@);
    }
    r
}

/// Reads the framed records of a log's bytes, in order, stopping at the end
/// or at a record cut short.
pub fn split_frames(data: &Vec<u8>) -> (r: Vec<Vec<u8>>)
    ensures
        r.deep_view() == frames_of(data@),
{
    let mut r: Vec<Vec<u8>> = Vec::new();
    let mut pos: usize = 0;
    proof {
        assert(data@.subrange(0, data@.len() as int) =~= data@);
        assert(r.deep_view() + frames_of(data@) =~= frames_of(data@));
    }
    while pos < data.len()
        invariant
            pos <= data@.len(),
            r.deep_view() + frames_of(data@.subrange(pos as int, data@.len() as int)) == frames_of(data@),
        decreases data@.len() - pos,
    {
        let ghost rest = data@.subrange(pos as int, data@.len() as int);
        if data.len() - pos < 4 {
            proof {
                assert(is_cut_short(rest));
                assert(r.deep_view() + frames_of(rest) =~= r.deep_view());
            }
            return r;
        }
        let n: u32 = ((data[pos] as u32) << 24u32) | ((data[pos + 1] as u32) << 16u32) | ((data[pos + 2] as u32)
            << 8u32) | (data[pos + 3] as u32);
        assert(n == announced(rest));
        if ((data.len() - pos - 4) as u64) < (n as u64) {
            proof {
                assert(is_cut_short(rest));
                assert(r.deep_view() + frames_of(rest) =~= r.deep_view());
            }
            return r;
        }
        let len = n as usize;
        let start = pos + 4;
        let mut rec: Vec<u8> = Vec::new();
        let mut j: usize = 0;
        let dlen = data.len();
        while j < len
            invariant
                j <= len,
                dlen == data@.len(),
                start as int + len as int <= data@.len(),
                rec@ == data@.subrange(start as int, start + j),
            decreases len - j,
        {
            assert(start + j < data@.len());
            rec.push(data[start + j]);
            proof {
                assert(data@.subrange(start as int, start + j + 1) =~= data@.subrange(start as int, start + j).push(
                    data@[start + j],
                ));
            }
            j = j + 1;
        }
        proof {
            assert(!is_cut_short(rest));
            assert(rest.subrange(4, 4 + len) =~= rec@);
            assert(rest.subrange(4 + len, rest.len() as int) =~= data@.subrange(
                start + len,
                data@.len() as int,
            ));
            assert(frames_of(rest) == seq![rec@] + frames_of(data@.subrange(start + len, data@.len() as int)));
        }
        let ghost old_r = r.deep_view();
        let ghost old_v = r@;
        proof {
            assert(rec.deep_view() =~= rec@);
        }
        r.push(rec);
        proof {
            assert(r.deep_view() =~= old_r.push(data@.subrange(start as int, start + len))) by {
                assert(r@ == old_v.push(r@[old_v.len() as int]));
                assert forall|k: int| 0 <= k < r@.len() implies #[trigger] r.deep_view()[k] == old_r.push(
                    data@.subrange(start as int, start + len),
                )[k] by {
                    if k < old_v.len() {
                        assert(r@[k] == old_v[k]);
                    }
                }
            }
            assert(r.deep_view() + frames_of(data@.subrange(start + len, data@.len() as int)) =~= old_r + (seq![
                data@.subrange(start as int, start + len),
            ] + frames_of(data@.subrange(start + len, data@.len() as int))));
        }
        pos = start + len;
    }
    proof {
        assert(data@.subrange(pos as int, data@.len() as int).len() == 0);
        assert(is_cut_short(data@.subrange(pos as int, data@.len() as int)));
        assert(r.deep_view() + frames_of(data@.subrange(pos as int, data@.len() as int)) =~= r.deep_view());
    }
    r
}

} // verus!
