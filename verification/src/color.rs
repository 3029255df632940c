//! Averaging of RGBA display colors.

use vstd::prelude::*;

verus! {

/// Channel `which` (0 = red, 1 = green, 2 = blue, 3 = alpha) of an RGBA color.
pub open spec fn channel(c: (u8, u8, u8, u8), which: int) -> u8 {
    if which == 0 {
        c.0
    } else if which == 1 {
        c.1
    } else if which == 2 {
        c.2
    } else {
        c.3
    }
}

/// Sum of channel `which` over a sequence of RGBA colors.
pub open spec fn channel_sum(colors: Seq<(u8, u8, u8, u8)>, which: int) -> int
    decreases colors.len(),
{
    if colors.len() == 0 {
        0
    } else {
        channel_sum(colors.drop_last(), which) + channel(colors.last(), which)
    }
}

proof fn lemma_channel_sum_bound(colors: Seq<(u8, u8, u8, u8)>, which: int)
    ensures
        0 <= channel_sum(colors, which) <= 255 * colors.len(),
    decreases colors.len(),
{
    if colors.len() > 0 {
        lemma_channel_sum_bound(colors.drop_last(), which);
    }
}

/// Averages a set of RGBA colors channel by channel, rounding down.
/// Returns `None` exactly when there is nothing to mix.
pub fn mix_colors(colors: Vec<(u8, u8, u8, u8)>) -> (mixed: Option<(u8, u8, u8, u8)>)
    requires
        colors.len() <= 0x0100_0000,
    ensures
        mixed matches Some(avg) ==> {
            let n = colors@.len() as int;
            &&& n > 0
            &&& avg.0 == channel_sum(colors@, 0) / n
            &&& avg.1 == channel_sum(colors@, 1) / n
            &&& avg.2 == channel_sum(colors@, 2) / n
            &&& avg.3 == channel_sum(colors@, 3) / n
        },
        mixed is None <==> colors@.len() == 0,
{
    let len = colors.len() as u32;

    if colors.is_empty() {
        return None;
    }

    let mut sum_r: u32 = 0;
    let mut sum_g: u32 = 0;
    let mut sum_b: u32 = 0;
    let mut sum_a: u32 = 0;

    let mut i: usize = 0;
    while i < colors.len()
        invariant
            i <= colors.len(),
            colors.len() <= 0x0100_0000,
            sum_r == channel_sum(colors@.take(i as int), 0),
            sum_g == channel_sum(colors@.take(i as int), 1),
            sum_b == channel_sum(colors@.take(i as int), 2),
            sum_a == channel_sum(colors@.take(i as int), 3),
        decreases colors.len() - i,
    {
        let (r, g, b, a) = colors[i];
        proof {
            lemma_channel_sum_bound(colors@.take(i as int), 0);
            lemma_channel_sum_bound(colors@.take(i as int), 1);
            lemma_channel_sum_bound(colors@.take(i as int), 2);
            lemma_channel_sum_bound(colors@.take(i as int), 3);
            assert(colors@.take(i + 1).drop_last() =~= colors@.take(i as int));
            assert(colors@.take(i + 1).last() == colors@[i as int]);
        }
        sum_r = sum_r + r as u32;
        sum_g = sum_g + g as u32;
        sum_b = sum_b + b as u32;
        sum_a = sum_a + a as u32;
        i = i + 1;
    }

    proof {
        assert(colors@.take(colors@.len() as int) =~= colors@);
        lemma_channel_sum_bound(colors@, 0);
        lemma_channel_sum_bound(colors@, 1);
        lemma_channel_sum_bound(colors@, 2);
        lemma_channel_sum_bound(colors@, 3);
        assert(sum_r / len <= 255 && sum_g / len <= 255 && sum_b / len <= 255 && sum_a / len
            <= 255) by (nonlinear_arith)
            requires
                len >= 1,
                sum_r <= 255 * len,
                sum_g <= 255 * len,
                sum_b <= 255 * len,
                sum_a <= 255 * len,
        ;
    }

    let avg_r = (sum_r / len) as u8;
    let avg_g = (sum_g / len) as u8;
    let avg_b = (sum_b / len) as u8;
    let avg_a = (sum_a / len) as u8;

    Some((avg_r, avg_g, avg_b, avg_a))
}

} // verus!
