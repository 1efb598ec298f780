//! Four-channel, 8-bit-per-channel colors and channel-wise averaging.

use vstd::prelude::*;

verus! {

/// A resolved color: red, green, blue and alpha, 8 bits per channel.
#[derive(Clone, Copy, Debug, PartialEq, Eq, Structural)]
pub struct Color {
    pub r: u8,
    pub g: u8,
    pub b: u8,
    pub a: u8,
}

/// The `i`-th channel of a color, in the fixed order red, green, blue, alpha.
pub open spec fn channel(c: Color, i: int) -> int {
    if i == 0 {
        c.r as int
    } else if i == 1 {
        c.g as int
    } else if i == 2 {
        c.b as int
    } else {
        c.a as int
    }
}

/// Sum of the `i`-th channel over a sequence of colors.
pub open spec fn channel_sum(s: Seq<Color>, i: int) -> int
    decreases s.len(),
{
    if s.len() == 0 {
        0
    } else {
        channel_sum(s.drop_last(), i) + channel(s.last(), i)
    }
}

/// Channel-wise arithmetic mean, with truncating integer division.
pub open spec fn mean_color(s: Seq<Color>) -> Color
    recommends
        s.len() >= 1,
{
    Color {
        r: (channel_sum(s, 0) / s.len() as int) as u8,
        g: (channel_sum(s, 1) / s.len() as int) as u8,
        b: (channel_sum(s, 2) / s.len() as int) as u8,
        a: (channel_sum(s, 3) / s.len() as int) as u8,
    }
}

/// Every channel sum is bounded by 255 per element.
pub proof fn lemma_channel_sum_le(s: Seq<Color>, i: int)
    ensures
        0 <= channel_sum(s, i) <= 255 * s.len(),
    decreases s.len(),
{
    if s.len() > 0 {
        lemma_channel_sum_le(s.drop_last(), i);
    }
}

/// If every element of `s` equals `c`, each channel sum is `len` copies of that channel.
pub proof fn lemma_channel_sum_constant(s: Seq<Color>, i: int, c: Color)
    requires
        forall|j: int| 0 <= j < s.len() ==> s[j] == c,
    ensures
        channel_sum(s, i) == s.len() * channel(c, i),
    decreases s.len(),
{
    if s.len() > 0 {
        lemma_channel_sum_constant(s.drop_last(), i, c);
        assert(s.len() * channel(c, i) == (s.len() - 1) * channel(c, i) + channel(c, i))
            by (nonlinear_arith);
    }
}

/// The mean of a sequence whose elements all equal `c` is `c` itself.
pub proof fn lemma_mean_constant(s: Seq<Color>, c: Color)
    requires
        s.len() >= 1,
        forall|j: int| 0 <= j < s.len() ==> s[j] == c,
    ensures
        mean_color(s) == c,
{
    let n = s.len() as int;
    assert forall|i: int| 0 <= i < 4 implies channel_sum(s, i) / n == channel(c, i) by {
        lemma_channel_sum_constant(s, i, c);
        assert((n * channel(c, i)) / n == channel(c, i)) by (nonlinear_arith)
            requires
                n >= 1,
        ;
    }
    assert(channel_sum(s, 0) / n == channel(c, 0));
    assert(channel_sum(s, 1) / n == channel(c, 1));
    assert(channel_sum(s, 2) / n == channel(c, 2));
    assert(channel_sum(s, 3) / n == channel(c, 3));
}

/// Channel-wise arithmetic mean (truncating integer division) of a non-empty
/// collection of colors.
pub fn average_color(colors: &Vec<Color>) -> (avg: Color)
    requires
        colors@.len() >= 1,
        colors@.len() * 255 <= u32::MAX,
    ensures
        avg == mean_color(colors@),
{
    let mut sr: u32 = 0;
    let mut sg: u32 = 0;
    let mut sb: u32 = 0;
    let mut sa: u32 = 0;
    let mut i: usize = 0;
    while i < colors.len()
        invariant
            0 <= i <= colors@.len(),
            colors@.len() * 255 <= u32::MAX,
            sr == channel_sum(colors@.take(i as int), 0),
            sg == channel_sum(colors@.take(i as int), 1),
            sb == channel_sum(colors@.take(i as int), 2),
            sa == channel_sum(colors@.take(i as int), 3),
        decreases colors@.len() - i,
    {
        proof {
            lemma_channel_sum_le(colors@.take(i as int), 0);
            lemma_channel_sum_le(colors@.take(i as int), 1);
            lemma_channel_sum_le(colors@.take(i as int), 2);
            lemma_channel_sum_le(colors@.take(i as int), 3);
            assert(255 * i < 255 * colors@.len()) by (nonlinear_arith)
                requires
                    0 <= i < colors@.len(),
            ;
            assert(colors@.take(i as int + 1).drop_last() =~= colors@.take(i as int));
        }
        let c = colors[i];
        sr = sr + c.r as u32;
        sg = sg + c.g as u32;
        sb = sb + c.b as u32;
        sa = sa + c.a as u32;
        i = i + 1;
    }
    proof {
        assert(colors@.take(colors@.len() as int) =~= colors@);
        lemma_channel_sum_le(colors@, 0);
        lemma_channel_sum_le(colors@, 1);
        lemma_channel_sum_le(colors@, 2);
        lemma_channel_sum_le(colors@, 3);
    }
    let n = colors.len() as u32;
    proof {
        assert(sr / n <= 255 && sg / n <= 255 && sb / n <= 255 && sa / n <= 255)
            by (nonlinear_arith)
            requires
                n >= 1,
                sr <= 255 * n,
                sg <= 255 * n,
                sb <= 255 * n,
                sa <= 255 * n,
        ;
    }
    Color { r: (sr / n) as u8, g: (sg / n) as u8, b: (sb / n) as u8, a: (sa / n) as u8 }
}

} // verus!
