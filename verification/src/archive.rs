//! The final archive framing: the serialized asset tree is compressed
//! with a general-purpose compressor and prefixed with its uncompressed
//! length, little endian, so the consumer can preallocate the whole
//! decompressed buffer before decompressing.

use vstd::prelude::*;
use crate::bundle::ImageSet;

verus! {

/// What the general-purpose compressor emits for a byte sequence. For
/// a given build target the stream depends on the input bytes alone
/// (the compressor reads native-endian words, so only a target with
/// another byte order could emit a different, still valid, stream).
pub uninterp spec fn lz4_of(bs: Seq<u8>) -> Seq<u8>;

/// Relies on lz4_flex::compress: one compressed block for the whole
/// input, a pure function of the input bytes.
#[verifier::external_body]
fn lz4_compress(bs: &[u8]) -> (r: Vec<u8>)
    ensures
        r@ == lz4_of(bs@),
{
    lz4_flex::compress(bs)
}

/// An 8-byte little-endian length prefix.
pub open spec fn spec_len_prefix(n: int) -> Seq<u8> {
    seq![
        (n % 0x100) as u8,
        ((n / 0x100) % 0x100) as u8,
        ((n / 0x1_0000) % 0x100) as u8,
        ((n / 0x100_0000) % 0x100) as u8,
        ((n / 0x1_0000_0000) % 0x100) as u8,
        ((n / 0x100_0000_0000) % 0x100) as u8,
        ((n / 0x1_0000_0000_0000) % 0x100) as u8,
        ((n / 0x100_0000_0000_0000) % 0x100) as u8,
    ]
}

/// The whole archive file for a serialized tree: an 8-byte little-
/// endian uncompressed-length prefix, then the compressed payload.
pub open spec fn spec_bake(bs: Seq<u8>) -> Seq<u8> {
    spec_len_prefix(bs.len() as int) + lz4_of(bs)
}

/// Frame and compress a serialized asset tree.
pub fn bake_payload(bs: &[u8]) -> (r: Vec<u8>)
    ensures
        r@ == spec_bake(bs@),
{
    let n = bs.len() as u64;
    let mut out: Vec<u8> = Vec::new();
    out.push((n & 0xff) as u8);
    out.push(((n >> 8) & 0xff) as u8);
    out.push(((n >> 16) & 0xff) as u8);
    out.push(((n >> 24) & 0xff) as u8);
    out.push(((n >> 32) & 0xff) as u8);
    out.push(((n >> 40) & 0xff) as u8);
    out.push(((n >> 48) & 0xff) as u8);
    out.push(((n >> 56) & 0xff) as u8);
    proof {
        assert(n & 0xff == n % 0x100) by (bit_vector);
        assert((n >> 8) & 0xff == (n / 0x100) % 0x100) by (bit_vector);
        assert((n >> 16) & 0xff == (n / 0x1_0000) % 0x100) by (bit_vector);
        assert((n >> 24) & 0xff == (n / 0x100_0000) % 0x100) by (bit_vector);
        assert((n >> 32) & 0xff == (n / 0x1_0000_0000) % 0x100) by (bit_vector);
        assert((n >> 40) & 0xff == (n / 0x100_0000_0000) % 0x100) by (bit_vector);
        assert((n >> 48) & 0xff == (n / 0x1_0000_0000_0000) % 0x100) by (bit_vector);
        assert((n >> 56) & 0xff == (n / 0x100_0000_0000_0000) % 0x100) by (bit_vector);
        assert(out@ =~= spec_len_prefix(bs@.len() as int));
    }
    let payload = lz4_compress(bs);
    let mut i: usize = 0;
    let ghost prefix = out@;
    while i < payload.len()
        invariant
            i <= payload@.len(),
            out@ == prefix + payload@.take(i as int),
        decreases payload@.len() - i,
    {
        out.push(payload[i]);
        proof {
            assert(out@ =~= prefix + payload@.take(i + 1));
        }
        i = i + 1;
    }
    proof {
        assert(payload@.take(payload@.len() as int) =~= payload@);
    }
    out
}

/// The little-endian bytes of a 32-bit count.
pub open spec fn spec_count_bytes(n: int) -> Seq<u8> {
    seq![
        (n % 0x100) as u8,
        ((n / 0x100) % 0x100) as u8,
        ((n / 0x1_0000) % 0x100) as u8,
        ((n / 0x100_0000) % 0x100) as u8,
    ]
}

/// The little-endian bytes of one stored size pair.
pub open spec fn spec_size_bytes(wh: (u16, u16)) -> Seq<u8> {
    seq![
        (wh.0 % 0x100) as u8,
        (wh.0 / 0x100) as u8,
        (wh.1 % 0x100) as u8,
        (wh.1 / 0x100) as u8,
    ]
}

/// The stored size pairs, back to back.
pub open spec fn spec_sizes_bytes(sizes: Seq<(u16, u16)>) -> Seq<u8>
    decreases sizes.len(),
{
    if sizes.len() == 0 {
        Seq::empty()
    } else {
        spec_sizes_bytes(sizes.drop_last()) + spec_size_bytes(sizes.last())
    }
}

/// The flat serialized form of a stored image set: a little-endian
/// image count, the per-image sizes, then the shared codec stream.
pub open spec fn spec_iset_tree(sizes: Seq<(u16, u16)>, stream: Seq<u8>) -> Seq<u8> {
    spec_count_bytes(sizes.len() as int) + spec_sizes_bytes(sizes) + stream
}

/// Serialize an image set and frame it as a whole archive payload.
pub fn bake_image_set(iset: &ImageSet) -> (r: Vec<u8>)
    requires
        iset.sizes@.len() <= u32::MAX,
    ensures
        r@ == spec_bake(spec_iset_tree(iset.sizes@, iset.qoi_stream@)),
{
    let mut tree: Vec<u8> = Vec::new();
    let count = iset.sizes.len() as u32;
    tree.push((count % 0x100) as u8);
    tree.push(((count / 0x100) % 0x100) as u8);
    tree.push(((count / 0x1_0000) % 0x100) as u8);
    tree.push(((count / 0x100_0000) % 0x100) as u8);
    proof {
        assert(tree@ =~= spec_count_bytes(iset.sizes@.len() as int));
    }
    let ghost head = tree@;
    let mut i: usize = 0;
    while i < iset.sizes.len()
        invariant
            i <= iset.sizes@.len(),
            head == spec_count_bytes(iset.sizes@.len() as int),
            tree@ == head + spec_sizes_bytes(iset.sizes@.take(i as int)),
        decreases iset.sizes@.len() - i,
    {
        let (w, h) = iset.sizes[i];
        tree.push((w % 0x100) as u8);
        tree.push((w / 0x100) as u8);
        tree.push((h % 0x100) as u8);
        tree.push((h / 0x100) as u8);
        proof {
            let t = iset.sizes@.take(i + 1);
            assert(t.drop_last() =~= iset.sizes@.take(i as int));
            assert(t.last() == iset.sizes@[i as int]);
            assert(tree@ =~= head + (spec_sizes_bytes(iset.sizes@.take(i as int))
                + spec_size_bytes(iset.sizes@[i as int])));
        }
        i = i + 1;
    }
    proof {
        assert(iset.sizes@.take(iset.sizes@.len() as int) =~= iset.sizes@);
    }
    let ghost framed = tree@;
    let mut i: usize = 0;
    while i < iset.qoi_stream.len()
        invariant
            i <= iset.qoi_stream@.len(),
            tree@ == framed + iset.qoi_stream@.take(i as int),
        decreases iset.qoi_stream@.len() - i,
    {
        tree.push(iset.qoi_stream[i]);
        proof {
            assert(tree@ =~= framed + iset.qoi_stream@.take(i + 1));
        }
        i = i + 1;
    }
    proof {
        assert(iset.qoi_stream@.take(iset.qoi_stream@.len() as int) =~= iset.qoi_stream@);
        assert(tree@ =~= spec_iset_tree(iset.sizes@, iset.qoi_stream@));
    }
    bake_payload(tree.as_slice())
}

} // verus!
