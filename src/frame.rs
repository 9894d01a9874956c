//! How the encoding of a run of pixels grows by one pixel.
use vstd::prelude::*;
use crate::color::{OrderedColors, RGB8, RGBW, grbw, rgb_channels, rgbw_channels};
use crate::encoding::{
    Encoding, encode_fixed, encoded_with, encoding_of, fixed_encoding, latch_if, table_encoded,
    zeros,
};

verus! {

/// Zero bytes of the reset gap of the table encoding: at least 300 us of low
/// signal at SPI clocks up to 3.73 MHz.
pub const RESET_LEN: usize = 140;

/// Table encoding of three-channel pixels, channels in the order `PO` gives.
pub open spec fn rgb_payload<PO: OrderedColors>(colors: Seq<RGB8>) -> Seq<u8> {
    table_encoded(rgb_channels::<PO>(colors))
}

/// Table encoding of four-channel pixels.
pub open spec fn rgbw_payload(colors: Seq<RGBW>) -> Seq<u8> {
    table_encoded(rgbw_channels(colors))
}

/// A whole frame: the reset gap first when `pre_latch` holds, the payload,
/// then the reset gap that makes the strip latch.
pub open spec fn framed(pre_latch: bool, payload: Seq<u8>) -> Seq<u8> {
    latch_if(pre_latch, RESET_LEN as nat) + payload + zeros(RESET_LEN as nat)
}

/// Appends `n` zero bytes to `buf`.
pub fn push_zeros(buf: &mut Vec<u8>, n: usize)
    ensures
        final(buf)@ == old(buf)@ + zeros(n as nat),
{
    let mut i: usize = 0;
    while i < n
        invariant
            i <= n,
            buf@ == old(buf)@ + zeros(i as nat),
        decreases n - i,
    {
        buf.push(0);
        assert(zeros((i + 1) as nat) =~= zeros(i as nat).push(0));
        i += 1;
    }
}

/// Appends the table encoding of `data` to `buf`.
pub fn push_encoded(buf: &mut Vec<u8>, data: u8)
    ensures
        final(buf)@ == old(buf)@ + fixed_encoding(data),
{
    let encoded = encode_fixed(data);
    buf.push(encoded[0]);
    buf.push(encoded[1]);
    buf.push(encoded[2]);
    buf.push(encoded[3]);
    assert(buf@ =~= old(buf)@ + fixed_encoding(data));
}

/// Appends the table encoding of three-channel `colors` to `buf`.
pub fn push_rgb<PO: OrderedColors>(buf: &mut Vec<u8>, colors: &[RGB8])
    ensures
        final(buf)@ == old(buf)@ + rgb_payload::<PO>(colors@),
{
    let mut i: usize = 0;
    while i < colors.len()
        invariant
            i <= colors.len(),
            buf@ == old(buf)@ + rgb_payload::<PO>(colors@.take(i as int)),
        decreases colors.len() - i,
    {
        let ordered = PO::order(colors[i]);
        push_encoded(buf, ordered[0]);
        push_encoded(buf, ordered[1]);
        push_encoded(buf, ordered[2]);
        proof {
            lemma_rgb_step::<PO>(Encoding::Table, colors@, i as int);
            assert(buf@ =~= old(buf)@ + rgb_payload::<PO>(colors@.take(i + 1)));
        }
        i += 1;
    }
    assert(colors@.take(colors.len() as int) =~= colors@);
}

/// Appends the table encoding of four-channel `colors` to `buf`.
pub fn push_rgbw(buf: &mut Vec<u8>, colors: &[RGBW])
    ensures
        final(buf)@ == old(buf)@ + rgbw_payload(colors@),
{
    let mut i: usize = 0;
    while i < colors.len()
        invariant
            i <= colors.len(),
            buf@ == old(buf)@ + rgbw_payload(colors@.take(i as int)),
        decreases colors.len() - i,
    {
        let color = colors[i];
        push_encoded(buf, color.g);
        push_encoded(buf, color.r);
        push_encoded(buf, color.b);
        push_encoded(buf, color.w);
        proof {
            lemma_rgbw_step(Encoding::Table, colors@, i as int);
            assert(buf@ =~= old(buf)@ + rgbw_payload(colors@.take(i + 1)));
        }
        i += 1;
    }
    assert(colors@.take(colors.len() as int) =~= colors@);
}

pub proof fn lemma_encoded_concat(enc: Encoding, a: Seq<u8>, b: Seq<u8>)
    ensures
        encoded_with(enc, a + b) == encoded_with(enc, a) + encoded_with(enc, b),
    decreases b.len(),
{
    if b.len() == 0 {
        assert(a + b =~= a);
        assert(encoded_with(enc, a) + encoded_with(enc, b) =~= encoded_with(enc, a));
    } else {
        lemma_encoded_concat(enc, a, b.drop_last());
        assert((a + b).drop_last() =~= a + b.drop_last());
        assert((a + b).last() == b.last());
        assert(encoded_with(enc, a + b) =~= encoded_with(enc, a) + encoded_with(enc, b));
    }
}

proof fn lemma_encoded_three(enc: Encoding, s: Seq<u8>)
    requires
        s.len() == 3,
    ensures
        encoded_with(enc, s) == encoding_of(enc, s[0]) + encoding_of(enc, s[1]) + encoding_of(
            enc,
            s[2],
        ),
{
    let s1 = s.drop_last();
    let s0 = s1.drop_last();
    assert(s0.drop_last() =~= Seq::<u8>::empty());
    assert(encoded_with(enc, s0) =~= encoded_with(enc, Seq::<u8>::empty()) + encoding_of(
        enc,
        s[0],
    ));
    assert(encoded_with(enc, s0) =~= encoding_of(enc, s[0]));
    assert(encoded_with(enc, s1) == encoded_with(enc, s0) + encoding_of(enc, s[1]));
    assert(encoded_with(enc, s) == encoded_with(enc, s1) + encoding_of(enc, s[2]));
    assert(encoded_with(enc, s) =~= encoding_of(enc, s[0]) + encoding_of(enc, s[1])
        + encoding_of(enc, s[2]));
}

proof fn lemma_encoded_four(enc: Encoding, s: Seq<u8>)
    requires
        s.len() == 4,
    ensures
        encoded_with(enc, s) == encoding_of(enc, s[0]) + encoding_of(enc, s[1]) + encoding_of(
            enc,
            s[2],
        ) + encoding_of(enc, s[3]),
{
    lemma_encoded_three(enc, s.drop_last());
    assert(encoded_with(enc, s) == encoded_with(enc, s.drop_last()) + encoding_of(enc, s[3]));
}

/// Appending pixel `i` appends the encodings of its three ordered channels.
pub proof fn lemma_rgb_step<PO: OrderedColors>(enc: Encoding, colors: Seq<RGB8>, i: int)
    requires
        0 <= i < colors.len(),
    ensures
        ({
            let ch = PO::channels(colors[i]);
            encoded_with(enc, rgb_channels::<PO>(colors.take(i + 1))) == encoded_with(
                enc,
                rgb_channels::<PO>(colors.take(i)),
            ) + encoding_of(enc, ch[0]) + encoding_of(enc, ch[1]) + encoding_of(enc, ch[2])
        }),
{
    let ch = PO::channels(colors[i]);
    PO::lemma_channels_len(colors[i]);
    assert(colors.take(i + 1).drop_last() =~= colors.take(i));
    assert(colors.take(i + 1).last() == colors[i]);
    lemma_encoded_concat(enc, rgb_channels::<PO>(colors.take(i)), ch);
    lemma_encoded_three(enc, ch);
}

/// Appending pixel `i` appends the encodings of its green, red, blue and
/// white channels.
pub proof fn lemma_rgbw_step(enc: Encoding, colors: Seq<RGBW>, i: int)
    requires
        0 <= i < colors.len(),
    ensures
        encoded_with(enc, rgbw_channels(colors.take(i + 1))) == encoded_with(
            enc,
            rgbw_channels(colors.take(i)),
        ) + encoding_of(enc, colors[i].g) + encoding_of(enc, colors[i].r) + encoding_of(
            enc,
            colors[i].b,
        ) + encoding_of(enc, colors[i].w),
{
    assert(colors.take(i + 1).drop_last() =~= colors.take(i));
    assert(colors.take(i + 1).last() == colors[i]);
    lemma_encoded_concat(enc, rgbw_channels(colors.take(i)), grbw(colors[i]));
    lemma_encoded_four(enc, grbw(colors[i]));
}

pub proof fn lemma_table_encoded_len(s: Seq<u8>)
    ensures
        table_encoded(s).len() == 4 * s.len(),
    decreases s.len(),
{
    if s.len() > 0 {
        lemma_table_encoded_len(s.drop_last());
        assert(table_encoded(s) == table_encoded(s.drop_last()) + fixed_encoding(s.last()));
    }
}

pub proof fn lemma_rgb_payload_len<PO: OrderedColors>(colors: Seq<RGB8>)
    ensures
        rgb_channels::<PO>(colors).len() == 3 * colors.len(),
        rgb_payload::<PO>(colors).len() == 12 * colors.len(),
    decreases colors.len(),
{
    if colors.len() > 0 {
        lemma_rgb_payload_len::<PO>(colors.drop_last());
        PO::lemma_channels_len(colors.last());
    }
    lemma_table_encoded_len(rgb_channels::<PO>(colors));
}

pub proof fn lemma_rgbw_payload_len(colors: Seq<RGBW>)
    ensures
        rgbw_channels(colors).len() == 4 * colors.len(),
        rgbw_payload(colors).len() == 16 * colors.len(),
    decreases colors.len(),
{
    if colors.len() > 0 {
        lemma_rgbw_payload_len(colors.drop_last());
    }
    lemma_table_encoded_len(rgbw_channels(colors));
}

/// A sequence extended by a piece of a prefix stays a prefix.
pub proof fn lemma_prefix_of_piece<T>(a: Seq<T>, b: Seq<T>, rest: Seq<T>, f: Seq<T>)
    requires
        (a + b + rest).is_prefix_of(f),
    ensures
        (a + b).is_prefix_of(f),
        a.is_prefix_of(f),
{
    assert((a + b) =~= f.subrange(0, (a + b).len() as int));
    assert(a =~= f.subrange(0, a.len() as int));
}

/// The encoding of the first `i` pixels is a prefix of that of them all.
pub proof fn lemma_rgb_prefix<PO: OrderedColors>(enc: Encoding, colors: Seq<RGB8>, i: int)
    requires
        0 <= i <= colors.len(),
    ensures
        encoded_with(enc, rgb_channels::<PO>(colors.take(i))).is_prefix_of(
            encoded_with(enc, rgb_channels::<PO>(colors)),
        ),
    decreases colors.len() - i,
{
    let all = encoded_with(enc, rgb_channels::<PO>(colors));
    if i == colors.len() {
        assert(colors.take(i) =~= colors);
        assert(all =~= all.subrange(0, all.len() as int));
    } else {
        lemma_rgb_prefix::<PO>(enc, colors, i + 1);
        lemma_rgb_step::<PO>(enc, colors, i);
        let ch = PO::channels(colors[i]);
        let part = encoded_with(enc, rgb_channels::<PO>(colors.take(i)));
        let rest = encoding_of(enc, ch[0]) + encoding_of(enc, ch[1]) + encoding_of(enc, ch[2]);
        assert(encoded_with(enc, rgb_channels::<PO>(colors.take(i + 1))) =~= part + rest);
        assert(part =~= all.subrange(0, part.len() as int));
    }
}

/// The encoding of the first `i` four-channel pixels is a prefix of that of them all.
pub proof fn lemma_rgbw_prefix(enc: Encoding, colors: Seq<RGBW>, i: int)
    requires
        0 <= i <= colors.len(),
    ensures
        encoded_with(enc, rgbw_channels(colors.take(i))).is_prefix_of(
            encoded_with(enc, rgbw_channels(colors)),
        ),
    decreases colors.len() - i,
{
    let all = encoded_with(enc, rgbw_channels(colors));
    if i == colors.len() {
        assert(colors.take(i) =~= colors);
        assert(all =~= all.subrange(0, all.len() as int));
    } else {
        lemma_rgbw_prefix(enc, colors, i + 1);
        lemma_rgbw_step(enc, colors, i);
        let c = colors[i];
        let part = encoded_with(enc, rgbw_channels(colors.take(i)));
        let rest = encoding_of(enc, c.g) + encoding_of(enc, c.r) + encoding_of(enc, c.b)
            + encoding_of(enc, c.w);
        assert(encoded_with(enc, rgbw_channels(colors.take(i + 1))) =~= part + rest);
        assert(part =~= all.subrange(0, part.len() as int));
    }
}

/// `bytes` handed to the bus one per call.
pub open spec fn one_byte(bytes: Seq<u8>) -> Seq<Seq<u8>> {
    Seq::new(bytes.len(), |i: int| seq![bytes[i]])
}

pub proof fn lemma_one_byte_step(done: Seq<u8>, b: u8, frame: Seq<u8>)
    requires
        done.push(b).is_prefix_of(frame),
    ensures
        one_byte(done.push(b)) == one_byte(done).push(seq![b]),
        one_byte(done).push(seq![b]).is_prefix_of(one_byte(frame)),
{
    assert(one_byte(done.push(b)) =~= one_byte(done).push(seq![b]));
    let d = one_byte(done.push(b));
    assert forall|i: int| 0 <= i < d.len() implies d[i] == one_byte(frame)[i] by {
        assert(done.push(b)[i] == frame[i]);
    }
    assert(d =~= one_byte(frame).subrange(0, d.len() as int));
}

} // verus!
