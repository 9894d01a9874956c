//! Device families, told apart by the channels that each pixel carries.
use vstd::prelude::*;

verus! {

/// WS2812 and compatible: three channels per pixel, order set by a pixel order.
pub struct Ws2812;

/// SK6812W: four channels per pixel, always sent green, red, blue, white.
pub struct Sk6812w;

} // verus!
