use crate::encoding::NetworkPackage;
use crate::redundancy::{
    length_field, lemma_redundancy_round_trip, redundancy_frame, redundancy_overhead,
    RedundancyPackage, BYTE_IN_ADDRESS, BYTE_IN_ENDING, BYTE_IN_LENGTH,
};
use vstd::prelude::*;
use vstd::slice::slice_subrange;

verus! {

/// A packet of the network layer.
#[derive(Debug, Clone)]
pub struct IPPackage {
    pub data: Vec<u8>,
}

impl NetworkPackage for IPPackage {

}

impl IPPackage {
    pub fn new(data: Vec<u8>) -> (r: Self)
        ensures
            r.data@ == data@,
    {
        Self { data }
    }
}

/// Number of fragments of `len` bytes in pieces of `size`.
pub open spec fn fragment_count(len: int, size: int) -> int {
    (len + size - 1) / size
}

/// Piece `i` of the data.
pub open spec fn fragment_piece(data: Seq<u8>, size: int, i: int) -> Seq<u8> {
    data.subrange(
        size * i,
        if size * i + size <= data.len() {
            size * i + size
        } else {
            data.len() as int
        },
    )
}

/// The frame of piece `i`: every piece but the last says that more follow.
pub open spec fn fragment_frame(data: Seq<u8>, size: int, i: int, src: u8, dest: u8) -> Seq<u8> {
    let piece = fragment_piece(data, size, i);
    redundancy_frame(
        piece,
        piece.len(),
        i != fragment_count(data.len() as int, size) - 1,
        src,
        dest,
    )
}

proof fn lemma_fragment_count(len: int, size: int)
    requires
        len > 0,
        size > 0,
    ensures
        fragment_count(len, size) >= 1,
        fragment_count(len, size) == (len - 1) / size + 1,
{
    assert(fragment_count(len, size) == (len - 1) / size + 1 && (len - 1) / size >= 0) by (nonlinear_arith)
        requires
            len > 0,
            size > 0,
    {
        assert((len + size - 1) / size == (len - 1 + size) / size);
        vstd::arithmetic::div_mod::lemma_div_plus_one(len - 1, size);
    }
}

proof fn lemma_piece_bounds(len: int, size: int, i: int)
    requires
        len > 0,
        size > 0,
        0 <= i < fragment_count(len, size),
    ensures
        0 <= size * i < len,
        size * i + size <= len || i == fragment_count(len, size) - 1,
        i == fragment_count(len, size) - 1 ==> size * i + size >= len,
        size * (i + 1) == size * i + size,
        fragment_count(len, size) >= 1,
{
    let c = fragment_count(len, size);
    assert(size * (i + 1) == size * i + size) by (nonlinear_arith);
    assert(c >= 1 && size * c >= len && size * (c - 1) < len) by (nonlinear_arith)
        requires
            len > 0,
            size > 0,
            c == (len + size - 1) / size,
    ;
    assert(size * i <= size * (c - 1)) by (nonlinear_arith)
        requires
            size > 0,
            i <= c - 1,
    ;
    if i < c - 1 {
        assert(size * (i + 1) <= size * (c - 1)) by (nonlinear_arith)
            requires
                size > 0,
                i + 1 <= c - 1,
        ;
    }
    assert(size * c == size * (c - 1) + size) by (nonlinear_arith);
}

/// Splits `data` into frames of at most `byte_in_frame` data bytes from `src` to `dest`.
pub fn fragment(data: &[u8], byte_in_frame: usize, src: u8, dest: u8) -> (r: Vec<
    RedundancyPackage,
>)
    requires
        data@.len() > 0,
        byte_in_frame > 0,
        byte_in_frame + redundancy_overhead() <= usize::MAX,
    ensures
        r@.len() == fragment_count(data@.len() as int, byte_in_frame as int),
        forall|i: int|
            0 <= i < r@.len() ==> #[trigger] r@[i].data@ == fragment_frame(
                data@,
                byte_in_frame as int,
                i,
                src,
                dest,
            ),
{
    let len = data.len();
    proof {
        lemma_fragment_count(len as int, byte_in_frame as int);
    }
    let count = (len - 1) / byte_in_frame + 1;
    let last_chunk_index = count - 1;
    let mut r: Vec<RedundancyPackage> = Vec::new();
    let mut i: usize = 0;
    while i < count
        invariant
            len == data@.len(),
            len > 0,
            byte_in_frame > 0,
            byte_in_frame + redundancy_overhead() <= usize::MAX,
            count == fragment_count(len as int, byte_in_frame as int),
            last_chunk_index == count - 1,
            i <= count,
            r@.len() == i,
            forall|k: int|
                0 <= k < i ==> #[trigger] r@[k].data@ == fragment_frame(
                    data@,
                    byte_in_frame as int,
                    k,
                    src,
                    dest,
                ),
        decreases count - i,
    {
        proof {
            lemma_piece_bounds(len as int, byte_in_frame as int, i as int);
        }
        let start = byte_in_frame * i;
        let end = if byte_in_frame <= len - start {
            start + byte_in_frame
        } else {
            len
        };
        let piece = slice_subrange(data, start, end);
        let package = RedundancyPackage::new(
            piece,
            piece.len(),
            i != last_chunk_index,
            src,
            dest,
        );
        r.push(package);
        i += 1;
    }
    r
}

/// What a frame adds to the packet being reassembled: the data bytes that its length field
/// announces.
pub open spec fn frame_payload(frame: Seq<u8>) -> Seq<u8> {
    let announced = length_field(frame) - redundancy_overhead();
    frame.subrange(
        5,
        if 5 + announced <= frame.len() {
            5 + announced
        } else {
            frame.len() as int
        },
    )
}

/// Reassembly of one frame: the bytes collected so far and the packet delivered, if any. A
/// frame without the more-fragments flag ends the packet, which is delivered unless it came from
/// `own` itself.
pub open spec fn reassemble_step(collected: Seq<u8>, frame: Seq<u8>, own: u8) -> (
    Seq<u8>,
    Option<Seq<u8>>,
) {
    let data = collected + frame_payload(frame);
    if frame[2] != 0 {
        (data, None)
    } else if frame[3] != own {
        (Seq::empty(), Some(data))
    } else {
        (Seq::empty(), None)
    }
}

/// Collects the fragments of packets sent to this node (`src_address`) and hands out each
/// completed packet.
pub struct Reassembler {
    pub data: Vec<u8>,
    pub src_address: u8,
}

impl Reassembler {
    pub fn new(src_address: u8) -> (r: Self)
        ensures
            r.data@ == Seq::<u8>::empty(),
            r.src_address == src_address,
    {
        Reassembler { data: Vec::new(), src_address }
    }

    /// Takes in one received frame.
    pub fn receive_fragment(&mut self, package: RedundancyPackage) -> (r: Option<IPPackage>)
        requires
            package.data@.len() >= 5,
            length_field(package.data@) >= redundancy_overhead(),
        ensures
            ({
                let (collected, delivered) = reassemble_step(
                    old(self).data@,
                    package.data@,
                    old(self).src_address,
                );
                &&& final(self).data@ == collected
                &&& final(self).src_address == old(self).src_address
                &&& match delivered {
                    Some(d) => r matches Some(p) && p.data@ == d,
                    None => r is None,
                }
            }),
    {
        let len = package.len();
        let more_fragments = package.has_more_fragments();
        let address = package.address();
        let skip = BYTE_IN_LENGTH + BYTE_IN_ENDING + BYTE_IN_ADDRESS;
        let total = package.data.len();
        let end = if len <= total - skip {
            skip + len
        } else {
            total
        };
        let payload = slice_subrange(package.data.as_slice(), skip, end);
        assert(payload@ =~= frame_payload(package.data@));
        self.data.extend_from_slice(payload);
        if !more_fragments {
            let mut data: Vec<u8> = Vec::new();
            std::mem::swap(&mut data, &mut self.data);
            if address.0 != self.src_address {
                return Some(IPPackage { data });
            }
        }
        None
    }
}

/// The collected bytes and the delivered packets after taking in `frames` in order.
pub open spec fn reassemble_all(frames: Seq<Seq<u8>>, own: u8) -> (Seq<u8>, Seq<Seq<u8>>)
    decreases frames.len(),
{
    if frames.len() == 0 {
        (Seq::empty(), Seq::empty())
    } else {
        let (collected, delivered) = reassemble_all(frames.drop_last(), own);
        let (next, out) = reassemble_step(collected, frames.last(), own);
        match out {
            Some(p) => (next, delivered.push(p)),
            None => (next, delivered),
        }
    }
}

/// The frames that `fragment` builds.
pub open spec fn fragment_frames(data: Seq<u8>, size: int, src: u8, dest: u8) -> Seq<Seq<u8>> {
    Seq::new(
        fragment_count(data.len() as int, size) as nat,
        |i: int| fragment_frame(data, size, i, src, dest),
    )
}

proof fn lemma_reassemble_prefix(data: Seq<u8>, size: int, src: u8, dest: u8, own: u8, k: int)
    requires
        data.len() > 0,
        size > 0,
        size + redundancy_overhead() < 65536,
        0 <= k < fragment_count(data.len() as int, size),
    ensures
        reassemble_all(fragment_frames(data, size, src, dest).take(k), own) == (
            data.take(size * k),
            Seq::<Seq<u8>>::empty(),
        ),
    decreases k,
{
    let frames = fragment_frames(data, size, src, dest);
    if k == 0 {
        assert(frames.take(0).len() == 0);
        assert(data.take(0) =~= Seq::<u8>::empty());
    } else {
        lemma_reassemble_prefix(data, size, src, dest, own, k - 1);
        assert(frames.take(k).drop_last() =~= frames.take(k - 1));
        lemma_piece_bounds(data.len() as int, size, k - 1);
        let piece = fragment_piece(data, size, k - 1);
        assert(piece.len() == size);
        lemma_redundancy_round_trip(piece, true, src, dest);
        let f = frames.take(k).last();
        assert(f == fragment_frame(data, size, k - 1, src, dest));
        assert(f == redundancy_frame(piece, piece.len(), true, src, dest));
        assert(frame_payload(f) =~= piece);
        assert(f[2] != 0);
        assert(data.take(size * (k - 1)) + piece =~= data.take(size * k));
        assert(reassemble_step(data.take(size * (k - 1)), f, own) == (
            data.take(size * k),
            Option::<Seq<u8>>::None,
        ));
    }
}

/// Law: a node other than the sender that takes in the frames of a packet, in order, delivers
/// exactly that packet, once, at the last frame, and keeps nothing back; the sender itself
/// delivers nothing and keeps nothing back (when a frame's length fits its two-byte field).
pub proof fn lemma_fragment_reassemble(data: Seq<u8>, size: int, src: u8, dest: u8, own: u8)
    requires
        data.len() > 0,
        size > 0,
        size + redundancy_overhead() < 65536,
    ensures
        reassemble_all(fragment_frames(data, size, src, dest), own) == (
            Seq::<u8>::empty(),
            if src != own {
                seq![data]
            } else {
                Seq::<Seq<u8>>::empty()
            },
        ),
{
    let frames = fragment_frames(data, size, src, dest);
    let c = fragment_count(data.len() as int, size);
    lemma_fragment_count(data.len() as int, size);
    lemma_piece_bounds(data.len() as int, size, c - 1);
    lemma_reassemble_prefix(data, size, src, dest, own, c - 1);
    assert(frames.take(c) =~= frames);
    assert(frames.take(c).drop_last() =~= frames.take(c - 1));
    let piece = fragment_piece(data, size, c - 1);
    assert(piece.len() <= size);
    lemma_redundancy_round_trip(piece, false, src, dest);
    let f = frames[c - 1];
    assert(f == redundancy_frame(piece, piece.len(), false, src, dest));
    assert(frame_payload(f) =~= piece);
    assert(data.take(size * (c - 1)) + piece =~= data);
    if src != own {
        assert(reassemble_all(frames, own).1 =~= seq![data]);
    }
}

} // verus!
