//! Sample arithmetic of the capture pipeline: downmixing interleaved frames to
//! mono, applying the volume gain, and linear-interpolation resampling.
//!
//! Samples are fixed-point integers. Decoded input samples are `i32` at full
//! scale; processed samples are `i64` whose magnitude never exceeds
//! `SAMPLE_LIMIT` (twice the full scale, the loudest the largest gain allows).
//! Every division rounds towards negative infinity.
use vstd::arithmetic::div_mod::*;
use vstd::arithmetic::mul::*;
use vstd::prelude::*;

verus! {

/// The gain that leaves samples unchanged. Gains are fixed-point numbers with
/// sixteen fractional bits.
pub const UNITY_GAIN: u32 = 65536;

/// The largest gain: a volume multiplier of two.
pub const MAX_GAIN: u32 = 131072;

/// Bound on the magnitude of a processed sample.
pub const SAMPLE_LIMIT: i64 = 0x1_0000_0000;

/// A gain forced into `[0, MAX_GAIN]`.
pub open spec fn clamped_gain(g: int) -> int {
    if g < 0 {
        0
    } else if g > MAX_GAIN {
        MAX_GAIN as int
    } else {
        g
    }
}

/// The integer values of processed samples.
pub open spec fn ints(v: Seq<i64>) -> Seq<int> {
    v.map_values(|x: i64| x as int)
}

/// Every sample lies within `SAMPLE_LIMIT` of zero.
pub open spec fn bounded(x: Seq<int>) -> bool {
    forall|i: int| 0 <= i < x.len() ==> -SAMPLE_LIMIT <= #[trigger] x[i] <= SAMPLE_LIMIT
}

/// Sum of the samples `s[start]`, ..., `s[start + n - 1]` that exist.
pub open spec fn partial_sum(s: Seq<i32>, start: int, n: int) -> int
    decreases n,
{
    if n <= 0 {
        0
    } else {
        partial_sum(s, start, n - 1) + if 0 <= start + n - 1 < s.len() {
            s[start + n - 1] as int
        } else {
            0
        }
    }
}

/// Number of frames in `len` interleaved samples of `ch` channels; a trailing
/// partial frame counts as a frame.
pub open spec fn frame_count(len: nat, ch: nat) -> nat {
    ((len + ch - 1) as nat) / ch
}

/// The arithmetic mean of the channels of frame `k`.
pub open spec fn frame_mean(s: Seq<i32>, ch: nat, k: int) -> int {
    partial_sum(s, k * ch, ch as int) / (ch as int)
}

/// A sample scaled by a fixed-point gain.
pub open spec fn scaled(m: int, gain: int) -> int {
    m * gain / (UNITY_GAIN as int)
}

/// Interleaved samples of `ch` channels, mixed down to mono and scaled by
/// `gain`: one sample per frame.
pub open spec fn downmix(s: Seq<i32>, ch: nat, gain: int) -> Seq<int> {
    Seq::new(frame_count(s.len(), ch), |k: int| scaled(frame_mean(s, ch, k), gain))
}

/// The sample at output index `i` when `x`, taken at rate `src`, is resampled
/// to rate `tgt`: the linear interpolation between the two neighbours of
/// source position `i * src / tgt`, the upper one clamped to the last sample.
pub open spec fn interpolated(x: Seq<int>, i: int, src: int, tgt: int) -> int {
    let pos = i * src;
    let i0 = pos / tgt;
    let rem = pos % tgt;
    let i1 = if i0 + 1 < x.len() {
        i0 + 1
    } else {
        x.len() - 1
    };
    (x[i0] * (tgt - rem) + x[i1] * rem) / tgt
}

/// `x`, taken at rate `src`, resampled to rate `tgt`. An unknown rate (zero)
/// or equal rates leave the samples as they are.
pub open spec fn resampled(x: Seq<int>, src: nat, tgt: nat) -> Seq<int> {
    if src == 0 || src == tgt {
        x
    } else {
        Seq::new(x.len() * tgt / src, |i: int| interpolated(x, i, src as int, tgt as int))
    }
}

/// Forces a requested gain into `[0, MAX_GAIN]`.
pub fn clamp_gain(g: i64) -> (r: u32)
    ensures
        r == clamped_gain(g as int),
{
    if g < 0 {
        0
    } else if g > MAX_GAIN as i64 {
        MAX_GAIN
    } else {
        g as u32
    }
}

/// Division rounding towards negative infinity.
pub fn floor_div(n: i128, d: i128) -> (q: i128)
    requires
        d > 0,
    ensures
        q == n / d,
{
    if n >= 0 {
        (n as u128 / d as u128) as i128
    } else {
        let m: u128 = (-1 - n) as u128;
        let a: u128 = m / d as u128;
        proof {
            let mi = m as int;
            let di = d as int;
            let ai = a as int;
            lemma_fundamental_div_mod(mi, di);
            lemma_mod_pos_bound(mi, di);
            let b = mi % di;
            assert(n as int == di * (-ai - 1) + (di - b - 1)) by (nonlinear_arith)
                requires
                    mi == di * ai + b,
                    mi == -1 - n,
            ;
            lemma_fundamental_div_mod_converse(n as int, di, -ai - 1, di - b - 1);
        }
        -(a as i128) - 1
    }
}

proof fn lemma_div_bounded(n: int, d: int, bound: int)
    requires
        d > 0,
        bound >= 0,
        -bound * d <= n <= bound * d,
    ensures
        -bound <= n / d <= bound,
{
    lemma_div_is_ordered(-bound * d, n, d);
    lemma_div_is_ordered(n, bound * d, d);
    lemma_fundamental_div_mod_converse(-bound * d, d, -bound, 0);
    lemma_fundamental_div_mod_converse(bound * d, d, bound, 0);
}

proof fn lemma_partial_sum_bounds(s: Seq<i32>, start: int, n: int)
    requires
        n >= 0,
    ensures
        -n * 0x8000_0000 <= partial_sum(s, start, n) <= n * 0x8000_0000,
    decreases n,
{
    if n > 0 {
        lemma_partial_sum_bounds(s, start, n - 1);
    }
}

proof fn lemma_partial_sum_past_end(s: Seq<i32>, start: int, m: int, n: int)
    requires
        0 <= m <= n,
        start + m >= s.len(),
    ensures
        partial_sum(s, start, n) == partial_sum(s, start, m),
    decreases n,
{
    if n > m {
        lemma_partial_sum_past_end(s, start, m, n - 1);
    }
}

/// The mean of the channels of the frame that starts at `start`.
fn frame_mean_at(samples: &Vec<i32>, channels: usize, start: usize) -> (r: i64)
    requires
        channels > 0,
        start < samples.len(),
    ensures
        r == partial_sum(samples@, start as int, channels as int) / (channels as int),
        -0x8000_0000 <= r <= 0x8000_0000,
{
    let avail: usize = samples.len() - start;
    let n: usize = if channels < avail {
        channels
    } else {
        avail
    };
    let mut acc: i128 = 0;
    let mut c: usize = 0;
    while c < n
        invariant
            c <= n,
            n <= channels,
            start + n <= samples.len(),
            acc == partial_sum(samples@, start as int, c as int),
        decreases n - c,
    {
        proof {
            lemma_partial_sum_bounds(samples@, start as int, c as int);
        }
        acc = acc + samples[start + c] as i128;
        c = c + 1;
    }
    proof {
        if n < channels {
            lemma_partial_sum_past_end(samples@, start as int, n as int, channels as int);
        }
        lemma_partial_sum_bounds(samples@, start as int, channels as int);
        lemma_div_bounded(acc as int, channels as int, 0x8000_0000);
    }
    floor_div(acc, channels as i128) as i64
}

/// Scales a mean sample by the gain.
fn scale_sample(m: i64, gain: u32) -> (r: i64)
    requires
        -0x8000_0000 <= m <= 0x8000_0000,
        gain <= MAX_GAIN,
    ensures
        r == scaled(m as int, gain as int),
        -SAMPLE_LIMIT <= r <= SAMPLE_LIMIT,
{
    proof {
        assert(-0x1_0000_0000 * 65536 <= m * gain <= 0x1_0000_0000 * 65536) by (nonlinear_arith)
            requires
                -0x8000_0000 <= m <= 0x8000_0000,
                0 <= gain <= 131072,
        ;
        lemma_div_bounded(m * gain, 65536, 0x1_0000_0000);
    }
    let p: i128 = m as i128 * gain as i128;
    floor_div(p, UNITY_GAIN as i128) as i64
}

/// Mixes interleaved samples of `channels` channels down to mono, each output
/// sample the mean of its frame's channels scaled by `gain`.
pub fn downmix_block(samples: &Vec<i32>, channels: usize, gain: u32) -> (r: Vec<i64>)
    requires
        channels > 0,
        gain <= MAX_GAIN,
    ensures
        ints(r@) == downmix(samples@, channels as nat, gain as int),
        bounded(ints(r@)),
{
    let mut out: Vec<i64> = Vec::new();
    let mut start: usize = 0;
    let ghost spec_out = downmix(samples@, channels as nat, gain as int);
    proof {
        let ch = channels as int;
        let len = samples.len() as int;
        lemma_fundamental_div_mod(len + ch - 1, ch);
        lemma_mod_pos_bound(len + ch - 1, ch);
        assert(spec_out.len() > 0 <==> len > 0) by (nonlinear_arith)
            requires
                len + ch - 1 == ch * spec_out.len() + (len + ch - 1) % ch,
                0 <= (len + ch - 1) % ch < ch,
                ch > 0,
                len >= 0,
                spec_out.len() >= 0,
        ;
        assert(0 * ch == 0);
    }
    while start < samples.len()
        invariant
            channels > 0,
            gain <= MAX_GAIN,
            start == out.len() * channels,
            out.len() <= spec_out.len(),
            out.len() < spec_out.len() <==> start < samples.len(),
            spec_out == downmix(samples@, channels as nat, gain as int),
            forall|k: int| 0 <= k < out.len() ==> #[trigger] out@[k] as int == spec_out[k],
            forall|k: int|
                0 <= k < out.len() ==> -SAMPLE_LIMIT <= #[trigger] out@[k] <= SAMPLE_LIMIT,
        decreases samples.len() - start,
    {
        let m = frame_mean_at(samples, channels, start);
        let v = scale_sample(m, gain);
        let ghost k = out.len() as int;
        out.push(v);
        proof {
            let ch = channels as int;
            let len = samples.len() as int;
            assert(start as int == k * ch);
            lemma_fundamental_div_mod(len + ch - 1, ch);
            lemma_mod_pos_bound(len + ch - 1, ch);
        }
        if samples.len() - start <= channels {
            proof {
                let ch = channels as int;
                let len = samples.len() as int;
                let fc = spec_out.len() as int;
                lemma_fundamental_div_mod(len + ch - 1, ch);
                lemma_mod_pos_bound(len + ch - 1, ch);
                assert(fc == k + 1) by (nonlinear_arith)
                    requires
                        len + ch - 1 == ch * fc + (len + ch - 1) % ch,
                        0 <= (len + ch - 1) % ch < ch,
                        start == k * ch,
                        start < len,
                        len - start <= ch,
                        ch > 0,
                ;
                assert(ints(out@) =~= spec_out);
            }
            proof {
                assert(bounded(ints(out@)));
            }
            return out;
        }
        proof {
            let ch = channels as int;
            let len = samples.len() as int;
            let fc = spec_out.len() as int;
            assert(k + 1 < fc && (k + 1) * ch == start + ch) by (nonlinear_arith)
                requires
                    len + ch - 1 == ch * fc + (len + ch - 1) % ch,
                    0 <= (len + ch - 1) % ch < ch,
                    start == k * ch,
                    len - start > ch,
                    ch > 0,
            ;
        }
        start = start + channels;
    }
    proof {
        assert(ints(out@) =~= spec_out);
        assert(bounded(ints(out@)));
    }
    out
}

/// Resamples `x` from rate `src` to rate `tgt` by linear interpolation.
pub fn resample(x: &Vec<i64>, src: u32, tgt: u32) -> (r: Vec<i64>)
    requires
        src > 0,
        tgt > 0,
        src != tgt,
        bounded(ints(x@)),
        x.len() * tgt <= usize::MAX,
    ensures
        ints(r@) == resampled(ints(x@), src as nat, tgt as nat),
        bounded(ints(r@)),
{
    let len: usize = x.len();
    let total: u128 = len as u128 * tgt as u128;
    let new_len: u128 = total / src as u128;
    proof {
        lemma_fundamental_div_mod(total as int, src as int);
        lemma_mod_pos_bound(total as int, src as int);
        assert(new_len <= total) by (nonlinear_arith)
            requires
                total == src * new_len + (total as int) % (src as int),
                (total as int) % (src as int) >= 0,
                src > 0,
                new_len >= 0,
        ;
    }
    let new_len: usize = new_len as usize;
    let ghost xs = ints(x@);
    let ghost spec_out = resampled(xs, src as nat, tgt as nat);
    let mut out: Vec<i64> = Vec::new();
    let mut i: usize = 0;
    while i < new_len
        invariant
            i <= new_len,
            new_len == spec_out.len(),
            len == x.len(),
            len == xs.len(),
            total == len * tgt,
            new_len == (total as int) / (src as int),
            xs == ints(x@),
            bounded(xs),
            src > 0,
            tgt > 0,
            src != tgt,
            spec_out == resampled(xs, src as nat, tgt as nat),
            out.len() == i,
            forall|k: int| 0 <= k < i ==> #[trigger] out@[k] as int == spec_out[k],
            forall|k: int|
                0 <= k < out.len() ==> -SAMPLE_LIMIT <= #[trigger] out@[k] <= SAMPLE_LIMIT,
        decreases new_len - i,
    {
        proof {
            assert(i * src <= 0xffff_ffff_ffff_ffff * 0xffff_ffff) by (nonlinear_arith)
                requires
                    i <= 0xffff_ffff_ffff_ffff,
                    src <= 0xffff_ffff,
            ;
        }
        let pos: u128 = i as u128 * src as u128;
        let i0: u128 = pos / tgt as u128;
        let rem: u128 = pos % tgt as u128;
        proof {
            let si = src as int;
            let ti = tgt as int;
            lemma_fundamental_div_mod(total as int, si);
            lemma_mod_pos_bound(total as int, si);
            lemma_fundamental_div_mod(pos as int, ti);
            lemma_mod_pos_bound(pos as int, ti);
            assert(i0 < len) by (nonlinear_arith)
                requires
                    total == si * new_len + (total as int) % si,
                    (total as int) % si >= 0,
                    i + 1 <= new_len,
                    pos == i * si,
                    pos == ti * i0 + (pos as int) % ti,
                    (pos as int) % ti >= 0,
                    total == len * ti,
                    si > 0,
                    ti > 0,
            ;
        }
        let i0: usize = i0 as usize;
        let i1: usize = if i0 + 1 < len {
            i0 + 1
        } else {
            len - 1
        };
        let a: i128 = x[i0] as i128;
        let b: i128 = x[i1] as i128;
        let w0: i128 = (tgt as u128 - rem) as i128;
        let w1: i128 = rem as i128;
        proof {
            assert(-SAMPLE_LIMIT <= xs[i0 as int] <= SAMPLE_LIMIT);
            assert(-SAMPLE_LIMIT <= xs[i1 as int] <= SAMPLE_LIMIT);
            assert(-0x1_0000_0000 * tgt <= a * w0 + b * w1 <= 0x1_0000_0000 * tgt)
                by (nonlinear_arith)
                requires
                    -0x1_0000_0000 <= a <= 0x1_0000_0000,
                    -0x1_0000_0000 <= b <= 0x1_0000_0000,
                    w0 >= 0,
                    w1 >= 0,
                    w0 + w1 == tgt,
            ;
            assert(-0x1_0000_0000 * 0x1_0000_0000 <= a * w0 + b * w1
                <= 0x1_0000_0000 * 0x1_0000_0000) by (nonlinear_arith)
                requires
                    -0x1_0000_0000 * tgt <= a * w0 + b * w1 <= 0x1_0000_0000 * tgt,
                    tgt <= 0x1_0000_0000,
            ;
            assert(-0x1_0000_0000 * 0x1_0000_0000 <= a * w0 <= 0x1_0000_0000 * 0x1_0000_0000)
                by (nonlinear_arith)
                requires
                    -0x1_0000_0000 <= a <= 0x1_0000_0000,
                    0 <= w0 <= 0x1_0000_0000,
            ;
            lemma_div_bounded(a * w0 + b * w1, tgt as int, 0x1_0000_0000);
        }
        let v: i128 = a * w0 + b * w1;
        let sample: i128 = floor_div(v, tgt as i128);
        out.push(sample as i64);
        i = i + 1;
    }
    proof {
        assert(ints(out@) =~= spec_out);
        assert(bounded(ints(out@)));
    }
    out
}

/// Downmixing interleaved stereo: every output sample is the mean of the
/// frame's two channels, `(a + b) / 2`, scaled by the gain.
pub proof fn stereo_downmix(s: Seq<i32>, gain: int, k: int)
    requires
        s.len() % 2 == 0,
        0 <= k < s.len() / 2,
    ensures
        downmix(s, 2, gain).len() == s.len() / 2,
        downmix(s, 2, gain)[k] == scaled((s[2 * k] + s[2 * k + 1]) / 2, gain),
{
    assert(frame_count(s.len(), 2) == s.len() / 2);
    reveal_with_fuel(partial_sum, 3);
    assert(partial_sum(s, k * 2, 2) == s[2 * k] + s[2 * k + 1]);
}

/// The gain is linear: at gain `g` every downmixed sample is the sample at
/// unity gain times `g / UNITY_GAIN`, rounded down.
pub proof fn gain_is_linear(s: Seq<i32>, ch: nat, g: int, k: int)
    requires
        ch > 0,
        0 <= k < frame_count(s.len(), ch),
    ensures
        ({
            let unity = downmix(s, ch, UNITY_GAIN as int)[k];
            let out = downmix(s, ch, g)[k];
            &&& unity == frame_mean(s, ch, k)
            &&& out * UNITY_GAIN <= unity * g < out * UNITY_GAIN + UNITY_GAIN
        }),
{
    let m = frame_mean(s, ch, k);
    lemma_fundamental_div_mod_converse(m * 65536, 65536, m, 0);
    lemma_fundamental_div_mod(m * g, 65536);
    lemma_mod_bound(m * g, 65536);
}

proof fn lemma_interpolation_tracks_gain(
    x0: int, x1: int, y0: int, y1: int, w0: int, w1: int, t: int, g: int, u: int,
)
    requires
        w0 >= 0,
        w1 >= 0,
        w0 + w1 == t,
        t > 0,
        g >= 0,
        u > 0,
        y0 * u <= x0 * g < y0 * u + u,
        y1 * u <= x1 * g < y1 * u + u,
    ensures
        ({
            let rx = (x0 * w0 + x1 * w1) / t;
            let ry = (y0 * w0 + y1 * w1) / t;
            rx * g - 2 * u < ry * u <= rx * g + g
        }),
{
    let a = x0 * w0 + x1 * w1;
    let b = y0 * w0 + y1 * w1;
    let e0 = x0 * g - y0 * u;
    let e1 = x1 * g - y1 * u;
    assert(e0 * w0 >= 0) by (nonlinear_arith)
        requires
            e0 >= 0,
            w0 >= 0,
    ;
    assert(e1 * w1 >= 0) by (nonlinear_arith)
        requires
            e1 >= 0,
            w1 >= 0,
    ;
    assert((u - e0) * w0 >= w0) by (nonlinear_arith)
        requires
            u - e0 >= 1,
            w0 >= 0,
    ;
    assert((u - e1) * w1 >= w1) by (nonlinear_arith)
        requires
            u - e1 >= 1,
            w1 >= 0,
    ;
    lemma_mul_is_distributive_add_other_way(g, x0 * w0, x1 * w1);
    lemma_mul_is_distributive_add_other_way(u, y0 * w0, y1 * w1);
    lemma_mul_is_distributive_sub_other_way(w0, x0 * g, y0 * u);
    lemma_mul_is_distributive_sub_other_way(w1, x1 * g, y1 * u);
    lemma_mul_is_associative(x0, w0, g);
    lemma_mul_is_associative(x0, g, w0);
    lemma_mul_is_commutative(w0, g);
    lemma_mul_is_associative(x1, w1, g);
    lemma_mul_is_associative(x1, g, w1);
    lemma_mul_is_commutative(w1, g);
    lemma_mul_is_associative(y0, w0, u);
    lemma_mul_is_associative(y0, u, w0);
    lemma_mul_is_commutative(w0, u);
    lemma_mul_is_associative(y1, w1, u);
    lemma_mul_is_associative(y1, u, w1);
    lemma_mul_is_commutative(w1, u);
    assert(a * g - b * u == e0 * w0 + e1 * w1);
    lemma_mul_is_distributive_sub_other_way(w0, u, e0);
    lemma_mul_is_distributive_sub_other_way(w1, u, e1);
    lemma_mul_is_distributive_add(u, w0, w1);
    assert(b * u <= a * g && a * g - u * t < b * u);
    let rx = a / t;
    let ry = b / t;
    lemma_fundamental_div_mod(a, t);
    lemma_mod_bound(a, t);
    lemma_fundamental_div_mod(b, t);
    lemma_mod_bound(b, t);
    assert(t * rx <= a < t * rx + t);
    assert(t * ry <= b < t * ry + t);
    assert(ry * u <= rx * g + g) by (nonlinear_arith)
        requires
            t * ry <= b,
            b * u <= a * g,
            a < t * rx + t,
            g >= 0,
            u > 0,
            t > 0,
    ;
    assert(rx * g - 2 * u < ry * u) by (nonlinear_arith)
        requires
            b < t * ry + t,
            a * g - u * t < b * u,
            t * rx <= a,
            g >= 0,
            u > 0,
            t > 0,
    ;
}

/// The volume is linear up to rounding: after downmixing and resampling, a
/// sample at gain `g` times `UNITY_GAIN` is within two gain units of the
/// sample at unity gain times `g`.
pub proof fn volume_is_linear(s: Seq<i32>, ch: nat, g: int, src: nat, tgt: nat, i: int)
    requires
        ch > 0,
        tgt > 0,
        0 <= g,
        0 <= i < resampled(downmix(s, ch, UNITY_GAIN as int), src, tgt).len(),
    ensures
        ({
            let x = resampled(downmix(s, ch, UNITY_GAIN as int), src, tgt);
            let y = resampled(downmix(s, ch, g), src, tgt);
            &&& y.len() == x.len()
            &&& x[i] * g - 2 * UNITY_GAIN < y[i] * UNITY_GAIN <= x[i] * g + g
        }),
{
    let xs = downmix(s, ch, UNITY_GAIN as int);
    let ys = downmix(s, ch, g);
    let u = UNITY_GAIN as int;
    assert forall|j: int| 0 <= j < xs.len() implies ys[j] * u <= #[trigger] xs[j] * g < ys[j] * u
        + u by {
        gain_is_linear(s, ch, g, j);
    }
    if src == 0 || src == tgt {
        assert(g >= 0);
    } else {
        let x = resampled(xs, src, tgt);
        let pos = i * src;
        let i0 = pos / (tgt as int);
        let rem = pos % (tgt as int);
        lemma_fundamental_div_mod(pos, tgt as int);
        lemma_mod_bound(pos, tgt as int);
        lemma_fundamental_div_mod((xs.len() * tgt) as int, src as int);
        lemma_mod_bound((xs.len() * tgt) as int, src as int);
        assert(0 <= i0 < xs.len()) by (nonlinear_arith)
            requires
                (xs.len() * tgt) as int == src * x.len() + (xs.len() * tgt) as int % (src as int),
                (xs.len() * tgt) as int % (src as int) >= 0,
                i + 1 <= x.len(),
                i >= 0,
                pos == i * src,
                pos == tgt * i0 + rem,
                0 <= rem < tgt,
                src > 0,
                tgt > 0,
        ;
        let i1 = if i0 + 1 < xs.len() {
            i0 + 1
        } else {
            xs.len() - 1
        };
        lemma_interpolation_tracks_gain(
            xs[i0],
            xs[i1],
            ys[i0],
            ys[i1],
            tgt - rem,
            rem,
            tgt as int,
            g,
            u,
        );
    }
}

} // verus!
