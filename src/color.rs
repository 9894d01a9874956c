//! Colour values and the order in which their channels go on the wire.
use vstd::prelude::*;

verus! {

/// A colour with 8-bit red, green and blue channels.
#[derive(Debug, Clone, Copy, PartialEq, Eq, Structural, Default)]
pub struct RGB8 {
    pub r: u8,
    pub g: u8,
    pub b: u8,
}

/// A colour with 8-bit red, green, blue and white channels.
#[derive(Debug, Clone, Copy, PartialEq, Eq, Structural, Default)]
pub struct RGBW {
    pub r: u8,
    pub g: u8,
    pub b: u8,
    pub w: u8,
}

/// The order in which a three-channel device expects the channels of a pixel.
pub trait OrderedColors {
    /// The channel bytes of `color`, first on the wire first.
    spec fn channels(color: RGB8) -> Seq<u8>;

    /// Every pixel has three channels.
    proof fn lemma_channels_len(color: RGB8)
        ensures
            Self::channels(color).len() == 3,
    ;

    fn order(color: RGB8) -> (r: [u8; 3])
        ensures
            r@ == Self::channels(color),
    ;
}

/// Channel bytes of a run of three-channel pixels, in the order `PO` gives.
pub open spec fn rgb_channels<PO: OrderedColors>(colors: Seq<RGB8>) -> Seq<u8>
    decreases colors.len(),
{
    if colors.len() == 0 {
        Seq::empty()
    } else {
        rgb_channels::<PO>(colors.drop_last()) + PO::channels(colors.last())
    }
}

/// The wire order of a four-channel pixel: green, red, blue, white.
pub open spec fn grbw(color: RGBW) -> Seq<u8> {
    seq![color.g, color.r, color.b, color.w]
}

/// Channel bytes of a run of four-channel pixels.
pub open spec fn rgbw_channels(colors: Seq<RGBW>) -> Seq<u8>
    decreases colors.len(),
{
    if colors.len() == 0 {
        Seq::empty()
    } else {
        rgbw_channels(colors.drop_last()) + grbw(colors.last())
    }
}

} // verus!
