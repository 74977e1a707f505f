use vstd::prelude::*;

verus! {

/// Layout of a texture image: one picture, or a vertical strip of `n`
/// equally tall layers.
#[derive(Clone, Copy, Debug, PartialEq, Eq, Structural)]
pub enum TextureFormat {
    SingleTexture,
    TextureArray(usize),
}

} // verus!
