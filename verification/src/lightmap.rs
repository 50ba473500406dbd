//! The texel counts of a baked lightmap atlas.
use vstd::prelude::*;

verus! {

/// The number of texels of a `width` by `height` atlas.
pub fn texel_count(width: u32, height: u32) -> (n: usize)
    requires
        width * height <= usize::MAX,
    ensures
        n == width * height,
{
    (width as usize) * (height as usize)
}

/// Whether the texel buffers of a `width` by `height` atlas each hold exactly one texel per
/// atlas position: the radiance buffer of `radiance_len` texels, and the direction buffer of
/// `direction_len` texels when the encoding has one.
pub fn buffers_well_formed(width: u32, height: u32, radiance_len: usize, direction_len: Option<usize>) -> (r: bool)
    requires
        width * height <= usize::MAX,
    ensures
        r == (radiance_len == width * height && (direction_len matches Some(d) ==> d == width * height)),
{
    let n = texel_count(width, height);
    match direction_len {
        None => radiance_len == n,
        Some(d) => radiance_len == n && d == n,
    }
}

} // verus!
