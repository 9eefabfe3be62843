//! Ramp records and the bytes of a ramp.

use vstd::prelude::*;

verus! {

/// Bytes per texel of the gradient texture (`Rgba8Unorm`).
pub const BYTES_PER_TEXEL: u32 = 4;

/// Where one ramp lies in the packed buffer, and when it was last asked for.
#[derive(Clone, Copy, Debug)]
pub struct CachedRamp {
    /// Width of the ramp in texels.
    pub width: u32,
    /// Offset of the ramp in the packed buffer, in texels.
    pub lut_start: u32,
    /// Epoch of the last lookup that touched the ramp.
    pub last_used: u64,
}

impl CachedRamp {
    /// Whether the ramp was last asked for in `epoch` or later.
    pub open spec fn is_used_since(self, epoch: u64) -> bool {
        self.last_used >= epoch
    }

    /// Whether the ramp was last asked for in `epoch` or later.
    pub fn used_since(&self, epoch: u64) -> (used: bool)
        ensures
            used == self.is_used_since(epoch),
    {
        self.last_used >= epoch
    }

    /// The record of the same ramp after a lookup in `epoch`.
    pub open spec fn touched(self, epoch: u64) -> CachedRamp {
        CachedRamp { last_used: epoch, ..self }
    }

    /// The record of the same ramp after it was moved to `lut_start`.
    pub open spec fn moved_to(self, lut_start: u32) -> CachedRamp {
        CachedRamp { lut_start, ..self }
    }
}

/// The bytes of a run of texels: four per texel, in order.
pub open spec fn texel_bytes(texels: Seq<[u8; 4]>) -> Seq<u8> {
    Seq::new(4 * texels.len(), |i: int| texels[i / 4][i % 4])
}

/// Views a slice of texels as its bytes.
///
/// Trusted: calls `bytemuck::cast_slice` from `[u8; 4]` to `u8`. Both types
/// have alignment 1 and the byte count is a multiple of the target size, so
/// the cast cannot fail; the result is the same memory, read byte by byte.
#[verifier::external_body]
fn texels_as_bytes(texels: &[[u8; 4]]) -> (bytes: &[u8])
    ensures
        bytes@ == texel_bytes(texels@),
{
    bytemuck::cast_slice(texels)
}

/// Appends the bytes of a generated ramp to `output` and returns the ramp's
/// width in texels.
pub fn append_lut(texels: &[[u8; 4]], output: &mut Vec<u8>) -> (width: usize)
    ensures
        final(output)@ == old(output)@ + texel_bytes(texels@),
        width == texels@.len(),
{
    let bytes = texels_as_bytes(texels);
    output.reserve(bytes.len());
    output.extend_from_slice(bytes);
    texels.len()
}

} // verus!
