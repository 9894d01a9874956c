//! The six channel orders of three-channel devices. Most devices take `GRB`.
use vstd::prelude::*;
use crate::color::{OrderedColors, RGB8};

verus! {

pub struct RGB;

pub struct RBG;

pub struct GRB;

pub struct GBR;

pub struct BRG;

pub struct BGR;

impl OrderedColors for RGB {
    open spec fn channels(color: RGB8) -> Seq<u8> {
        seq![color.r, color.g, color.b]
    }

    proof fn lemma_channels_len(color: RGB8) {
    }

    fn order(color: RGB8) -> (r: [u8; 3]) {
        let r = [color.r, color.g, color.b];
        assert(r@ =~= Self::channels(color));
        r
    }
}

impl OrderedColors for RBG {
    open spec fn channels(color: RGB8) -> Seq<u8> {
        seq![color.r, color.b, color.g]
    }

    proof fn lemma_channels_len(color: RGB8) {
    }

    fn order(color: RGB8) -> (r: [u8; 3]) {
        let r = [color.r, color.b, color.g];
        assert(r@ =~= Self::channels(color));
        r
    }
}

impl OrderedColors for GRB {
    open spec fn channels(color: RGB8) -> Seq<u8> {
        seq![color.g, color.r, color.b]
    }

    proof fn lemma_channels_len(color: RGB8) {
    }

    fn order(color: RGB8) -> (r: [u8; 3]) {
        let r = [color.g, color.r, color.b];
        assert(r@ =~= Self::channels(color));
        r
    }
}

impl OrderedColors for GBR {
    open spec fn channels(color: RGB8) -> Seq<u8> {
        seq![color.g, color.b, color.r]
    }

    proof fn lemma_channels_len(color: RGB8) {
    }

    fn order(color: RGB8) -> (r: [u8; 3]) {
        let r = [color.g, color.b, color.r];
        assert(r@ =~= Self::channels(color));
        r
    }
}

impl OrderedColors for BRG {
    open spec fn channels(color: RGB8) -> Seq<u8> {
        seq![color.b, color.r, color.g]
    }

    proof fn lemma_channels_len(color: RGB8) {
    }

    fn order(color: RGB8) -> (r: [u8; 3]) {
        let r = [color.b, color.r, color.g];
        assert(r@ =~= Self::channels(color));
        r
    }
}

impl OrderedColors for BGR {
    open spec fn channels(color: RGB8) -> Seq<u8> {
        seq![color.b, color.g, color.r]
    }

    proof fn lemma_channels_len(color: RGB8) {
    }

    fn order(color: RGB8) -> (r: [u8; 3]) {
        let r = [color.b, color.g, color.r];
        assert(r@ =~= Self::channels(color));
        r
    }
}

} // verus!
