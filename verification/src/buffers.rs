//! Flat buffers of texels: the byte layout of RGBE8 and the conversion of a
//! whole image.
use crate::types::{RGB9E5, RGBE8};
use vstd::prelude::*;

verus! {

impl RGBE8 {
    /// The texel laid out as four bytes: red, green, blue, exponent. This is
    /// the layout of an RGBA8 pixel with the exponent in the alpha channel.
    pub fn to_bytes(self) -> (bytes: [u8; 4])
        ensures
            bytes@ == seq![self.r, self.g, self.b, self.e],
    {
        let bytes = [self.r, self.g, self.b, self.e];
        assert(bytes@ =~= seq![self.r, self.g, self.b, self.e]);
        bytes
    }

    /// The texel that four bytes lay out.
    pub fn from_bytes(bytes: [u8; 4]) -> (texel: RGBE8)
        ensures
            texel == (RGBE8 { r: bytes@[0], g: bytes@[1], b: bytes@[2], e: bytes@[3] }),
    {
        RGBE8 { r: bytes[0], g: bytes[1], b: bytes[2], e: bytes[3] }
    }
}

/// The texel that lies at index `i` of a buffer of RGBA8 bytes.
pub open spec fn texel_at(bytes: Seq<u8>, i: int) -> RGBE8 {
    RGBE8 { r: bytes[4 * i], g: bytes[4 * i + 1], b: bytes[4 * i + 2], e: bytes[4 * i + 3] }
}

/// Reads a buffer of RGBA8 bytes as RGBE8 texels, four bytes to a texel.
/// A buffer that does not end with a whole texel is refused.
pub fn texels_from_bytes(bytes: &[u8]) -> (out: Option<Vec<RGBE8>>)
    ensures
        out.is_some() <==> bytes@.len() % 4 == 0,
        out matches Some(texels) ==> {
            &&& texels@.len() * 4 == bytes@.len()
            &&& forall|i: int| 0 <= i < texels@.len() ==> texels@[i] == texel_at(bytes@, i)
        },
{
    let len: usize = bytes.len();
    if len % 4 != 0 {
        return None;
    }
    let n: usize = len / 4;
    let mut texels: Vec<RGBE8> = Vec::with_capacity(n);
    let mut i: usize = 0;
    while i < n
        invariant
            i <= n,
            len == bytes@.len(),
            n * 4 == len,
            texels@.len() == i,
            forall|j: int| 0 <= j < i ==> texels@[j] == texel_at(bytes@, j),
        decreases n - i,
    {
        let t = RGBE8 {
            r: bytes[4 * i],
            g: bytes[4 * i + 1],
            b: bytes[4 * i + 2],
            e: bytes[4 * i + 3],
        };
        texels.push(t);
        i = i + 1;
    }
    Some(texels)
}

/// Lays a buffer of RGBE8 texels out as RGBA8 bytes, four bytes to a texel.
pub fn texels_to_bytes(texels: &[RGBE8]) -> (bytes: Vec<u8>)
    ensures
        bytes@.len() == texels@.len() * 4,
        forall|i: int| 0 <= i < texels@.len() ==> texels@[i] == texel_at(bytes@, i),
{
    let mut bytes: Vec<u8> = Vec::new();
    let mut i: usize = 0;
    while i < texels.len()
        invariant
            i <= texels@.len(),
            bytes@.len() == i * 4,
            forall|j: int| 0 <= j < i ==> texels@[j] == texel_at(bytes@, j),
        decreases texels@.len() - i,
    {
        let t = texels[i];
        let ghost before = bytes@;
        bytes.push(t.r);
        bytes.push(t.g);
        bytes.push(t.b);
        bytes.push(t.e);
        proof {
            assert forall|j: int| 0 <= j < i + 1 implies texels@[j] == texel_at(bytes@, j) by {
                if j < i {
                    assert(texels@[j] == texel_at(before, j));
                }
            }
        }
        i = i + 1;
    }
    bytes
}

/// Repacks every texel of a buffer as RGB9E5, in order.
pub fn repack_texels(texels: &[RGBE8]) -> (out: Vec<RGB9E5>)
    ensures
        out@.len() == texels@.len(),
        forall|i: int| 0 <= i < out@.len() ==> texels@[i].repacks_to(out@[i]),
{
    let mut out: Vec<RGB9E5> = Vec::with_capacity(texels.len());
    let mut i: usize = 0;
    while i < texels.len()
        invariant
            i <= texels@.len(),
            out@.len() == i,
            forall|j: int| 0 <= j < i ==> texels@[j].repacks_to(out@[j]),
        decreases texels@.len() - i,
    {
        out.push(texels[i].repack_rgb9e5());
        i = i + 1;
    }
    out
}

} // verus!
