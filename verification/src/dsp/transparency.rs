//! A signal that needs no reduction passes untouched.
//!
//! The laws here hold for every arithmetic that leaves numbers alone where it has
//! nothing to do.

use vstd::prelude::*;
use crate::arith::{minus_of, plus_of, times_of, Arith};
use crate::dsp::analysis::Fourier;
use crate::dsp::detector::follow_of;
use crate::dsp::filters::{
    cascade_of, cascade_steps, filter_step_of, filtered_of, flush_of, gains_set_of, mix_of,
    oversampling_set_of, ramp_share_of, ramp_step_of, ramped_filter_of, ramped_of, sample_of, settled_of,
    Biquad, CascadeState, Coeffs, GAIN_RAMP_SAMPLES, UNITY_FLOOR,
};
use crate::dsp::suppressor::{
    channel_step_of, fft_size, filters_updated_of, fresh_gains, io_of, joined_of, joined_with, lemma_delay_contents,
    lemma_latency_is_exact, lemma_sample_keeps_setup, run_of, run_step_of, suppressed_of, wet_of,
    ChannelFrame, ChannelState, SuppressorState,
};
use crate::dsp::BANDS;
use crate::numbers::{ONE, ZERO};
use crate::single::Single;

verus! {

/// A finite number that no machine flushes to zero.
pub open spec fn plain(x: Single) -> bool {
    x.finite() && !(x.exponent() == 0 && x.fraction() != 0)
}

/// A zero of either sign.
pub open spec fn nil(x: Single) -> bool {
    plain(x) && x.steps() == 0
}

/// `A` leaves numbers alone where it has nothing to do: times one, and plus or
/// minus zero. A product with zero is zero, and so is the difference of a number
/// and itself. The shares of a ramp are plain numbers.
pub open spec fn neutral<A: Arith>() -> bool {
    &&& forall|x: Single, r: Single|
        plain(x) && #[trigger] times_of::<A>(Single(ONE), x, r) ==> plain(r) && r.steps() == x.steps()
    &&& forall|x: Single, r: Single|
        plain(x) && #[trigger] times_of::<A>(x, Single(ONE), r) ==> plain(r) && r.steps() == x.steps()
    &&& forall|z: Single, x: Single, r: Single|
        plain(x) && plain(z) && (nil(z) || nil(x)) && #[trigger] times_of::<A>(z, x, r) ==> nil(r)
    &&& forall|x: Single, z: Single, r: Single|
        plain(x) && nil(z) && #[trigger] plus_of::<A>(x, z, r) ==> plain(r) && r.steps() == x.steps()
    &&& forall|z: Single, x: Single, r: Single|
        plain(x) && nil(z) && #[trigger] plus_of::<A>(z, x, r) ==> plain(r) && r.steps() == x.steps()
    &&& forall|x: Single, z: Single, r: Single|
        plain(x) && nil(z) && #[trigger] minus_of::<A>(x, z, r) ==> plain(r) && r.steps() == x.steps()
    &&& forall|x: Single, r: Single| plain(x) && #[trigger] minus_of::<A>(x, x, r) ==> nil(r)
    &&& forall|pos: usize, t: Single| #[trigger] ramp_share_of::<A>(pos, t) ==> plain(t)
}

/// Coefficients that change nothing.
pub open spec fn passing(c: Coeffs) -> bool {
    &&& c.b0 == Single(ONE)
    &&& nil(c.b1)
    &&& nil(c.b2)
    &&& nil(c.a1)
    &&& nil(c.a2)
}

/// The filter changes nothing, and what it remembers is plain.
pub open spec fn transparent(f: Biquad) -> bool {
    &&& passing(f.coeffs)
    &&& plain(f.x1)
    &&& plain(f.x2)
    &&& plain(f.y1)
    &&& plain(f.y2)
}

/// A filter at unity passes every sample untouched.
pub proof fn lemma_filter_is_transparent<A: Arith>(before: Biquad, x: Single, after: Biquad, y: Single)
    requires
        neutral::<A>(),
        transparent(before),
        plain(x),
        filter_step_of::<A>(before, x, after, y),
    ensures
        y.steps() == x.steps(),
        plain(y),
        transparent(after),
{
    let raw = choose|raw: Single| #[trigger]
        filtered_of::<A>(before, x, raw) && flush_of::<A>(raw, y);
    assert(raw.steps() == x.steps() && plain(raw));
}

/// All filters of the cascade are at unity, and so are both ends of its ramp.
pub open spec fn calm(s: CascadeState) -> bool {
    &&& s.filters.len() == BANDS
    &&& s.ramp_from.len() == BANDS
    &&& s.ramp_to.len() == BANDS
    &&& forall|i: int| 0 <= i < BANDS ==> transparent(#[trigger] s.filters[i])
    &&& forall|i: int| 0 <= i < BANDS ==> passing(#[trigger] s.ramp_from[i])
    &&& forall|i: int| 0 <= i < BANDS ==> passing(#[trigger] s.ramp_to[i])
}

proof fn lemma_step_between_equals<A: Arith>(from: Single, to: Single, t: Single, r: Single)
    requires
        neutral::<A>(),
        plain(t),
        follow_of::<A>(from, to, t, r),
        (nil(from) && nil(to)) || (from == Single(ONE) && to == Single(ONE)),
    ensures
        nil(from) ==> nil(r),
        from == Single(ONE) ==> plain(r) && r.steps() == Single(ONE).steps(),
{
    let (way, step) = choose|way: Single, step: Single|
        {
            &&& #[trigger] minus_of::<A>(to, from, way)
            &&& #[trigger] times_of::<A>(way, t, step)
            &&& plus_of::<A>(from, step, r)
        };
    assert(nil(way));
    assert(nil(step));
}

/// Two plain numbers other than zero that have the same value are the same.
proof fn lemma_one_is_one(x: Single)
    requires
        x.finite(),
        x.steps() == Single(ONE).steps(),
    ensures
        x == Single(ONE),
{
    crate::single::lemma_magnitude_orders(x, Single(ONE));
    crate::single::lemma_magnitude_orders(Single(ONE), x);
    crate::single::lemma_magnitude_orders(Single(ZERO), Single(ONE));
}

proof fn lemma_mix_of_passing<A: Arith>(from: Coeffs, to: Coeffs, t: Single, r: Coeffs)
    requires
        neutral::<A>(),
        plain(t),
        passing(from),
        passing(to),
        mix_of::<A>(from, to, t, r),
    ensures
        passing(r),
{
    lemma_step_between_equals::<A>(from.b0, to.b0, t, r.b0);
    lemma_one_is_one(r.b0);
    lemma_step_between_equals::<A>(from.b1, to.b1, t, r.b1);
    lemma_step_between_equals::<A>(from.b2, to.b2, t, r.b2);
    lemma_step_between_equals::<A>(from.a1, to.a1, t, r.a1);
    lemma_step_between_equals::<A>(from.a2, to.a2, t, r.a2);
}

proof fn lemma_ramp_stays_calm<A: Arith>(s: CascadeState, pos: usize, filters: Seq<Biquad>)
    requires
        neutral::<A>(),
        calm(s),
        ramped_of::<A>(s, pos, filters),
    ensures
        filters.len() == BANDS,
        forall|i: int| 0 <= i < BANDS ==> transparent(#[trigger] filters[i]),
{
    let t = choose|t: Single|
        {
            &&& #[trigger] ramp_share_of::<A>(pos, t)
            &&& forall|i: int|
                0 <= i < BANDS ==> ramped_filter_of::<A>(
                    s.filters[i],
                    s.ramp_from[i],
                    s.ramp_to[i],
                    t,
                    #[trigger] filters[i],
                )
        };
    assert forall|i: int| 0 <= i < BANDS implies transparent(#[trigger] filters[i]) by {
        assert(ramped_filter_of::<A>(s.filters[i], s.ramp_from[i], s.ramp_to[i], t, filters[i]));
        lemma_mix_of_passing::<A>(s.ramp_from[i], s.ramp_to[i], t, filters[i].coeffs);
        assert(transparent(s.filters[i]));
    }
}

/// Gains of unity leave a calm cascade calm.
pub proof fn lemma_unity_gains_stay_calm<A: Arith>(
    s: CascadeState,
    gains: Seq<Single>,
    concentration: Seq<Single>,
    r: CascadeState,
)
    requires
        neutral::<A>(),
        calm(s),
        gains_set_of::<A>(s, gains, concentration, r),
        forall|i: int| 0 <= i < BANDS ==> Single(UNITY_FLOOR).at_most(#[trigger] gains[i]),
    ensures
        calm(r),
{
    assert(settled_of::<A>(s, r.filters));
    if s.ramp_pos < GAIN_RAMP_SAMPLES {
        lemma_ramp_stays_calm::<A>(s, s.ramp_pos, r.filters);
    }
    assert forall|i: int| 0 <= i < BANDS implies passing(#[trigger] r.ramp_from[i]) by {
        assert(transparent(r.filters[i]));
    }
    assert forall|i: int| 0 <= i < BANDS implies passing(#[trigger] r.ramp_to[i]) by {
        assert(Single(UNITY_FLOOR).at_most(gains[i]));
        crate::dsp::filters::lemma_unity_is_identity::<A>(s, gains, concentration, r, i);
        lemma_nil_zero();
    }
}

proof fn lemma_nil_zero()
    ensures
        nil(Single(ZERO)),
        plain(Single(ONE)),
{
}

/// A calm cascade passes every sample untouched, and stays calm.
pub proof fn lemma_calm_cascade_is_transparent<A: Arith>(
    s: CascadeState,
    x: Single,
    r: CascadeState,
    y: Single,
)
    requires
        neutral::<A>(),
        calm(s),
        plain(x),
        sample_of::<A>(s, x, r, y),
    ensures
        y.steps() == x.steps(),
        plain(y),
        calm(r),
{
    let mid = choose|mid: CascadeState|
        {
            &&& #[trigger] ramp_step_of::<A>(s, mid)
            &&& cascade_of::<A>(mid.filters, x, r.filters, y)
            &&& r == (CascadeState { filters: r.filters, ..mid })
        };
    if s.ramp_pos < GAIN_RAMP_SAMPLES {
        lemma_ramp_stays_calm::<A>(s, (s.ramp_pos + 1) as usize, mid.filters);
    }
    assert(calm(mid));
    let ys = choose|ys: Seq<Single>| #[trigger]
        ys.len() == BANDS + 1 && ys[0] == x && ys[BANDS as int] == y && cascade_steps::<A>(
            mid.filters,
            r.filters,
            ys,
            BANDS as int,
        );
    assert forall|i: int| 0 <= i < BANDS implies transparent(#[trigger] r.filters[i]) by {
        lemma_transparent_so_far::<A>(mid.filters, r.filters, ys, i + 1);
    }
    lemma_transparent_so_far::<A>(mid.filters, r.filters, ys, BANDS as int);
}

proof fn lemma_transparent_so_far<A: Arith>(
    before: Seq<Biquad>,
    after: Seq<Biquad>,
    ys: Seq<Single>,
    n: int,
)
    requires
        neutral::<A>(),
        0 <= n <= BANDS,
        forall|i: int| 0 <= i < BANDS ==> transparent(#[trigger] before[i]),
        cascade_steps::<A>(before, after, ys, BANDS as int),
        plain(ys[0]),
    ensures
        ys[n].steps() == ys[0].steps(),
        plain(ys[n]),
        n > 0 ==> transparent(after[n - 1]),
    decreases n,
{
    if n > 0 {
        lemma_transparent_so_far::<A>(before, after, ys, n - 1);
        assert(filter_step_of::<A>(before[n - 1], ys[n - 1], after[n - 1], ys[n - 1 + 1]));
        lemma_filter_is_transparent::<A>(before[n - 1], ys[n - 1], after[n - 1], ys[n]);
    }
}

// ----- The whole path ---------------------------------------------------------

/// Nothing is being reduced or faded, and the mix is all wet.
pub open spec fn unreduced<F: Fourier>(s: SuppressorState<F>) -> bool {
    &&& s.wf()
    &&& !s.delta_mode
    &&& s.mix == Single(ONE)
    &&& s.crossfade == 0
    &&& !s.oversampling
    &&& calm(s.channels[0][s.fft_index as int].bands@)
    &&& calm(s.channels[1][s.fft_index as int].bands@)
    &&& !s.channels[0][s.fft_index as int].bands@.oversampled
    &&& !s.channels[1][s.fft_index as int].bands@.oversampled
}

/// All gains in force are unity.
pub open spec fn at_unity<F: Fourier>(s: SuppressorState<F>) -> bool {
    forall|c: int, i: int|
        0 <= c < 2 && 0 <= i < BANDS ==> Single(UNITY_FLOOR).at_most(#[trigger] s.applied[c][i])
}

proof fn lemma_channel_stays_calm<A: Arith>(
    s: CascadeState,
    own: Option<ChannelFrame>,
    left: Option<ChannelFrame>,
    right: Option<ChannelFrame>,
    linked: bool,
    r: CascadeState,
)
    requires
        neutral::<A>(),
        calm(s),
        !s.oversampled,
        filters_updated_of::<A>(s, own, left, right, linked, false, r),
        fresh_gains(own, left, right, linked) matches Some(g) ==> forall|i: int|
            0 <= i < BANDS ==> Single(UNITY_FLOOR).at_most(#[trigger] g[i]),
    ensures
        calm(r),
        !r.oversampled,
{
    if let Some(f) = own {
        let mid = choose|mid: CascadeState| #[trigger]
            oversampling_set_of::<A>(s, false, mid) && gains_set_of::<A>(
                mid,
                fresh_gains(own, left, right, linked)->0,
                f.concentration@,
                r,
            );
        lemma_unity_gains_stay_calm::<A>(
            mid,
            fresh_gains(own, left, right, linked)->0,
            f.concentration@,
            r,
        );
    }
}

/// With the mix all wet, the wet signal passes untouched.
pub proof fn lemma_all_mix_is_wet<A: Arith>(dry: Single, wet: Single, r: Single)
    requires
        neutral::<A>(),
        plain(dry),
        plain(wet),
        io_of::<A>(dry, wet, Single(ONE), false, r),
    ensures
        plain(r),
        r.steps() == wet.steps(),
{
    lemma_nil_zero();
    let (rest, p, q) = choose|rest: Single, p: Single, q: Single|
        {
            &&& #[trigger] minus_of::<A>(Single(ONE), Single(ONE), rest)
            &&& #[trigger] times_of::<A>(dry, rest, p)
            &&& #[trigger] times_of::<A>(wet, Single(ONE), q)
            &&& plus_of::<A>(p, q, r)
        };
    assert(nil(rest));
    assert(nil(p));
    assert(plain(q) && q.steps() == wet.steps());
}

/// While nothing is reduced, what comes out is what leaves the delay.
pub proof fn lemma_unreduced_sample_passes<A: Arith, F: Fourier>(
    s: SuppressorState<F>,
    left: Single,
    right: Single,
    r: SuppressorState<F>,
    out: (Single, Single),
)
    requires
        neutral::<A>(),
        unreduced(s),
        plain(s.channels[0][s.fft_index as int].delay@[0]),
        plain(s.channels[1][s.fft_index as int].delay@[0]),
        suppressed_of::<A, F>(s, left, right, r, out),
        r.wf(),
        at_unity(r),
    ensures
        out.0.steps() == s.channels[0][s.fft_index as int].delay@[0].steps(),
        out.1.steps() == s.channels[1][s.fft_index as int].delay@[0].steps(),
        unreduced(r),
{
    let idx = s.fft_index as int;
    let (mid_l, mid_r, dry_l, dry_r, frame_l, frame_r) = choose|mid_l: ChannelState<F>, mid_r: ChannelState<F>, dry_l: Single, dry_r: Single, frame_l: Option<ChannelFrame>, frame_r: Option<ChannelFrame>|
        {
            &&& #[trigger] channel_step_of::<A, F>(
                s.channels[0][idx],
                left,
                s.params,
                mid_l,
                dry_l,
                frame_l,
            )
            &&& #[trigger] channel_step_of::<A, F>(
                s.channels[1][idx],
                right,
                s.params,
                mid_r,
                dry_r,
                frame_r,
            )
            &&& joined_of::<A, F>(s, mid_l, mid_r, dry_l, dry_r, frame_l, frame_r, r, out)
        };
    let linked = s.stereo_linked;
    let new_l = r.channels[0][idx];
    let new_r = r.channels[1][idx];
    let wet = choose|wet: (Single, Single)| #[trigger]
        joined_with::<A, F>(s, mid_l, mid_r, dry_l, dry_r, frame_l, frame_r, r, out, wet);
    let (g_l, g_r) = choose|g_l: CascadeState, g_r: CascadeState|
        {
            &&& #[trigger] filters_updated_of::<A>(
                mid_l.bands@,
                frame_l,
                frame_l,
                frame_r,
                linked,
                s.oversampling,
                g_l,
            )
            &&& #[trigger] filters_updated_of::<A>(
                mid_r.bands@,
                frame_r,
                frame_l,
                frame_r,
                linked,
                s.oversampling,
                g_r,
            )
            &&& wet_of::<A>(s.oversampling, g_l, dry_l, new_l.bands@, wet.0)
            &&& wet_of::<A>(s.oversampling, g_r, dry_r, new_r.bands@, wet.1)
        };
    if let Some(g) = fresh_gains(frame_l, frame_l, frame_r, linked) {
        assert(r.applied[0] == g);
    }
    if let Some(g) = fresh_gains(frame_r, frame_l, frame_r, linked) {
        assert(r.applied[1] == g);
    }
    lemma_channel_stays_calm::<A>(mid_l.bands@, frame_l, frame_l, frame_r, linked, g_l);
    lemma_channel_stays_calm::<A>(mid_r.bands@, frame_r, frame_l, frame_r, linked, g_r);
    lemma_calm_cascade_is_transparent::<A>(g_l, dry_l, new_l.bands@, wet.0);
    lemma_calm_cascade_is_transparent::<A>(g_r, dry_r, new_r.bands@, wet.1);
    crate::dsp::filters::lemma_sample_steps_ramp::<A>(g_l, new_l.bands@);
    crate::dsp::filters::lemma_sample_steps_ramp::<A>(g_r, new_r.bands@);
    lemma_all_mix_is_wet::<A>(dry_l, wet.0, out.0);
    lemma_all_mix_is_wet::<A>(dry_r, wet.1, out.1);
}

/// As long as no band is reduced, what comes out is what went in, exactly one
/// window later.
pub proof fn lemma_unreduced_signal_is_only_delayed<A: Arith, F: Fourier>(
    states: Seq<SuppressorState<F>>,
    lefts: Seq<Single>,
    rights: Seq<Single>,
    outs: Seq<(Single, Single)>,
    k: int,
)
    requires
        neutral::<A>(),
        run_of::<A, F>(states, lefts, rights, outs),
        unreduced(states[0]),
        forall|j: int| 0 <= j < states.len() ==> at_unity(#[trigger] states[j]),
        forall|j: int| 0 <= j < lefts.len() ==> plain(#[trigger] lefts[j]),
        forall|j: int| 0 <= j < rights.len() ==> plain(#[trigger] rights[j]),
        forall|c: int, j: int|
            0 <= c < 2 && 0 <= j < fft_size(states[0].fft_index as int) ==> plain(
                #[trigger] states[0].channels[c][states[0].fft_index as int].delay@[j],
            ),
        fft_size(states[0].fft_index as int) <= k < lefts.len(),
    ensures
        outs[k].0.steps() == lefts[k - fft_size(states[0].fft_index as int)].steps(),
        outs[k].1.steps() == rights[k - fft_size(states[0].fft_index as int)].steps(),
{
    lemma_unreduced_so_far::<A, F>(states, lefts, rights, outs, k + 1);
    lemma_latency_is_exact::<A, F>(states, lefts, rights, outs, k);
}

proof fn lemma_unreduced_so_far<A: Arith, F: Fourier>(
    states: Seq<SuppressorState<F>>,
    lefts: Seq<Single>,
    rights: Seq<Single>,
    outs: Seq<(Single, Single)>,
    k: int,
)
    requires
        neutral::<A>(),
        run_of::<A, F>(states, lefts, rights, outs),
        unreduced(states[0]),
        forall|j: int| 0 <= j < states.len() ==> at_unity(#[trigger] states[j]),
        forall|j: int| 0 <= j < lefts.len() ==> plain(#[trigger] lefts[j]),
        forall|j: int| 0 <= j < rights.len() ==> plain(#[trigger] rights[j]),
        forall|c: int, j: int|
            0 <= c < 2 && 0 <= j < fft_size(states[0].fft_index as int) ==> plain(
                #[trigger] states[0].channels[c][states[0].fft_index as int].delay@[j],
            ),
        0 <= k <= lefts.len(),
    ensures
        unreduced(states[k]),
        states[k].fft_index == states[0].fft_index,
        k > 0 ==> ({
            let before = states[k - 1];
            let idx = states[0].fft_index as int;
            &&& outs[k - 1].0.steps() == before.channels[0][idx].delay@[0].steps()
            &&& outs[k - 1].1.steps() == before.channels[1][idx].delay@[0].steps()
        }),
    decreases k,
{
    if k > 0 {
        let idx = states[0].fft_index as int;
        lemma_unreduced_so_far::<A, F>(states, lefts, rights, outs, k - 1);
        lemma_oldest_is_plain::<A, F>(states, lefts, rights, outs, k - 1);
        assert(states[k - 1].wf());
        assert(states[k].wf());
        assert(at_unity(states[k]));
        assert(run_step_of::<A, F>(
            states[k - 1],
            lefts[k - 1],
            rights[k - 1],
            states[k - 1 + 1],
            outs[k - 1],
        ));
        lemma_unreduced_step::<A, F>(
            states[k - 1],
            lefts[k - 1],
            rights[k - 1],
            states[k],
            outs[k - 1],
        );
    }
}

proof fn lemma_unreduced_step<A: Arith, F: Fourier>(
    s: SuppressorState<F>,
    left: Single,
    right: Single,
    r: SuppressorState<F>,
    out: (Single, Single),
)
    requires
        neutral::<A>(),
        unreduced(s),
        plain(s.channels[0][s.fft_index as int].delay@[0]),
        plain(s.channels[1][s.fft_index as int].delay@[0]),
        run_step_of::<A, F>(s, left, right, r, out),
        r.wf(),
        at_unity(r),
    ensures
        out.0.steps() == s.channels[0][s.fft_index as int].delay@[0].steps(),
        out.1.steps() == s.channels[1][s.fft_index as int].delay@[0].steps(),
        unreduced(r),
        r.fft_index == s.fft_index,
{
    reveal(run_step_of);
    lemma_unreduced_sample_passes::<A, F>(s, left, right, r, out);
    lemma_sample_keeps_setup::<A, F>(s, left, right, r, out);
}

proof fn lemma_oldest_is_plain<A: Arith, F: Fourier>(
    states: Seq<SuppressorState<F>>,
    lefts: Seq<Single>,
    rights: Seq<Single>,
    outs: Seq<(Single, Single)>,
    k: int,
)
    requires
        run_of::<A, F>(states, lefts, rights, outs),
        forall|j: int| 0 <= j < lefts.len() ==> plain(#[trigger] lefts[j]),
        forall|j: int| 0 <= j < rights.len() ==> plain(#[trigger] rights[j]),
        forall|c: int, j: int|
            0 <= c < 2 && 0 <= j < fft_size(states[0].fft_index as int) ==> plain(
                #[trigger] states[0].channels[c][states[0].fft_index as int].delay@[j],
            ),
        0 <= k < lefts.len(),
    ensures
        plain(states[k].channels[0][states[0].fft_index as int].delay@[0]),
        plain(states[k].channels[1][states[0].fft_index as int].delay@[0]),
{
    lemma_delay_contents::<A, F>(states, lefts, rights, outs, k);
}

/// With nothing of the wet signal in the mix, the dry one passes untouched.
pub proof fn lemma_no_mix_is_dry<A: Arith>(dry: Single, wet: Single, r: Single)
    requires
        neutral::<A>(),
        plain(dry),
        plain(wet),
        io_of::<A>(dry, wet, Single(ZERO), false, r),
    ensures
        plain(r),
        r.steps() == dry.steps(),
{
    lemma_nil_zero();
    let (rest, p, q) = choose|rest: Single, p: Single, q: Single|
        {
            &&& #[trigger] minus_of::<A>(Single(ONE), Single(ZERO), rest)
            &&& #[trigger] times_of::<A>(dry, rest, p)
            &&& #[trigger] times_of::<A>(wet, Single(ZERO), q)
            &&& plus_of::<A>(p, q, r)
        };
    assert(plain(Single(ONE)));
    lemma_one_is_one(rest);
    assert(nil(q));
}

/// Listening to what is taken out of a signal that passes untouched, one hears
/// nothing, whatever the mix.
pub proof fn lemma_delta_of_untouched_is_silent<A: Arith>(dry: Single, wet: Single, mix: Single, r: Single)
    requires
        neutral::<A>(),
        plain(dry),
        plain(wet),
        wet.steps() == dry.steps(),
        io_of::<A>(dry, wet, mix, true, r),
    ensures
        nil(r),
{
    crate::single::lemma_magnitude_orders(dry, wet);
    crate::single::lemma_magnitude_orders(wet, dry);
    if dry.steps() != 0 {
        assert(dry == wet);
    }
}

} // verus!
