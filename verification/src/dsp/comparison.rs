//! Suppressors side by side.
//!
//! Two suppressors that hear the same and differ in one setting come out related:
//! by a fade, by the mix, or by what is taken out. The laws here hold for every
//! arithmetic that answers alike every time.

use vstd::prelude::*;
use crate::arith::{minus_of, Arith};
use crate::dsp::analysis::{lemma_engine_is_whole, Fourier};
use crate::dsp::delay::silence;
use crate::dsp::agreement::{
    channels_alike, lemma_channel_step, lemma_filters_updated, lemma_fresh_paths_are_alike, lemma_io,
    lemma_output, lemma_path_is_determined, lemma_sample_is_mixed, lemma_sides, lemma_wet, paths_alike,
    same_make, same_settings, suppressed_with, suppressors_alike, Side,
};
use crate::dsp::determinism::{
    cascades_same, detectors_alike, engines_alike, repeats, same, same_pair, transforms_alike,
};
use crate::dsp::detector::lemma_detector_is_whole;
use crate::dsp::filters::{lemma_processor_is_whole, CascadeState};
use crate::dsp::suppressor::{
    channel_step_of, faded_of, fft_size, filters_updated_of, io_of, lemma_delay_contents,
    lemma_frames_in_lockstep, lemma_run_keeps_setup, lemma_sample_keeps_setup, output_of, rate_set_of,
    reset_of, run_of, run_step_of, suppressed_of, unity_gains, wet_of, ChannelFrame, SuppressorState,
    CROSSFADE_LEN, FFT_SIZES, SIZES,
};
use crate::dsp::transparency::{lemma_no_mix_is_dry, lemma_all_mix_is_wet, neutral, plain};
use crate::numbers::{ONE, ZERO};
use crate::single::Single;

verus! {

/// Whatever the filters made of a pair of samples is plain.
pub open spec fn wet_is_plain<A: Arith, F: Fourier>(
    s: SuppressorState<F>,
    left: Single,
    right: Single,
    r: SuppressorState<F>,
    out: (Single, Single),
) -> bool {
    forall|wet: (Single, Single)| #[trigger]
        suppressed_with::<A, F>(s, left, right, r, out, wet) ==> plain(wet.0) && plain(wet.1)
}

/// All that a run takes in, holds back at first, and filters is plain.
pub open spec fn plain_run<A: Arith, F: Fourier>(
    states: Seq<SuppressorState<F>>,
    lefts: Seq<Single>,
    rights: Seq<Single>,
    outs: Seq<(Single, Single)>,
) -> bool {
    &&& forall|j: int| 0 <= j < lefts.len() ==> plain(#[trigger] lefts[j])
    &&& forall|j: int| 0 <= j < rights.len() ==> plain(#[trigger] rights[j])
    &&& forall|c: int, j: int|
        0 <= c < 2 && 0 <= j < fft_size(states[0].fft_index as int) ==> plain(
            #[trigger] states[0].channels[c][states[0].fft_index as int].delay@[j],
        )
    &&& forall|j: int|
        0 <= j < lefts.len() ==> wet_is_plain::<A, F>(
            #[trigger] states[j],
            lefts[j],
            rights[j],
            states[j + 1],
            outs[j],
        )
}

/// What leaves the delays at sample `k` of a run.
pub open spec fn dry_at<F: Fourier>(states: Seq<SuppressorState<F>>, k: int) -> (Single, Single) {
    let idx = states[0].fft_index as int;
    (states[k].channels[0][idx].delay@[0], states[k].channels[1][idx].delay@[0])
}

proof fn lemma_dry_is_plain<A: Arith, F: Fourier>(
    states: Seq<SuppressorState<F>>,
    lefts: Seq<Single>,
    rights: Seq<Single>,
    outs: Seq<(Single, Single)>,
    k: int,
)
    requires
        run_of::<A, F>(states, lefts, rights, outs),
        plain_run::<A, F>(states, lefts, rights, outs),
        0 <= k < lefts.len(),
    ensures
        plain(dry_at(states, k).0),
        plain(dry_at(states, k).1),
{
    lemma_delay_contents::<A, F>(states, lefts, rights, outs, k);
}

/// A step of a run mixes what leaves the delays with what the filters make of it.
proof fn lemma_step_is_mixed<A: Arith, F: Fourier>(
    s: SuppressorState<F>,
    left: Single,
    right: Single,
    r: SuppressorState<F>,
    out: (Single, Single),
) -> (wet: (Single, Single))
    requires
        run_step_of::<A, F>(s, left, right, r, out),
    ensures
        suppressed_with::<A, F>(s, left, right, r, out, wet),
        output_of::<A, F>(s, s.channels[0][s.fft_index as int].delay@[0], wet.0, out.0),
        output_of::<A, F>(s, s.channels[1][s.fft_index as int].delay@[0], wet.1, out.1),
{
    reveal(run_step_of);
    lemma_sample_is_mixed::<A, F>(s, left, right, r, out)
}

/// Without a fade, and with nothing of the wet signal in the mix, the dry signal
/// comes out.
proof fn lemma_output_is_dry<A: Arith, F: Fourier>(s: SuppressorState<F>, dry: Single, wet: Single, out: Single)
    requires
        neutral::<A>(),
        s.mix == Single(ZERO),
        !s.delta_mode,
        s.crossfade == 0,
        plain(dry),
        plain(wet),
        output_of::<A, F>(s, dry, wet, out),
    ensures
        plain(out),
        out.steps() == dry.steps(),
{
    let m = choose|mixed: Single| #[trigger]
        io_of::<A>(dry, wet, s.mix, s.delta_mode, mixed) && faded_of::<A>(s.crossfade, mixed, out);
    lemma_no_mix_is_dry::<A>(dry, wet, m);
}

/// Without a fade, and with the mix all wet, the wet signal comes out.
proof fn lemma_output_is_wet<A: Arith, F: Fourier>(s: SuppressorState<F>, dry: Single, wet: Single, out: Single)
    requires
        neutral::<A>(),
        s.mix == Single(ONE),
        !s.delta_mode,
        s.crossfade == 0,
        plain(dry),
        plain(wet),
        output_of::<A, F>(s, dry, wet, out),
    ensures
        plain(out),
        out.steps() == wet.steps(),
{
    let m = choose|mixed: Single| #[trigger]
        io_of::<A>(dry, wet, s.mix, s.delta_mode, mixed) && faded_of::<A>(s.crossfade, mixed, out);
    lemma_all_mix_is_wet::<A>(dry, wet, m);
}

/// With nothing of the wet signal in the mix, what comes out is what the delays
/// held, and then what went in exactly one window earlier, whatever the other
/// parameters.
pub proof fn lemma_no_mix_is_only_delayed<A: Arith, F: Fourier>(
    states: Seq<SuppressorState<F>>,
    lefts: Seq<Single>,
    rights: Seq<Single>,
    outs: Seq<(Single, Single)>,
    k: int,
)
    requires
        neutral::<A>(),
        run_of::<A, F>(states, lefts, rights, outs),
        plain_run::<A, F>(states, lefts, rights, outs),
        states[0].mix == Single(ZERO),
        !states[0].delta_mode,
        states[0].crossfade == 0,
        0 <= k < lefts.len(),
    ensures
        ({
            let idx = states[0].fft_index as int;
            &&& outs[k].0.steps() == if k < fft_size(idx) {
                states[0].channels[0][idx].delay@[k].steps()
            } else {
                lefts[k - fft_size(idx)].steps()
            }
            &&& outs[k].1.steps() == if k < fft_size(idx) {
                states[0].channels[1][idx].delay@[k].steps()
            } else {
                rights[k - fft_size(idx)].steps()
            }
        }),
{
    let s = states[k];
    lemma_run_keeps_setup::<A, F>(states, lefts, rights, outs, k);
    lemma_dry_is_plain::<A, F>(states, lefts, rights, outs, k);
    lemma_delay_contents::<A, F>(states, lefts, rights, outs, k);
    let wet = lemma_parts_at::<A, F>(states, lefts, rights, outs, k);
    assert(wet_is_plain::<A, F>(s, lefts[k], rights[k], states[k + 1], outs[k]));
    lemma_output_is_dry::<A, F>(s, dry_at(states, k).0, wet.0, outs[k].0);
    lemma_output_is_dry::<A, F>(s, dry_at(states, k).1, wet.1, outs[k].1);
}

/// Fresh or reset, with nothing of the wet signal in the mix, a suppressor is
/// silent for exactly one window, and then gives what went in that much earlier.
pub proof fn lemma_no_mix_from_silence<A: Arith, F: Fourier>(
    states: Seq<SuppressorState<F>>,
    lefts: Seq<Single>,
    rights: Seq<Single>,
    outs: Seq<(Single, Single)>,
    k: int,
)
    requires
        neutral::<A>(),
        run_of::<A, F>(states, lefts, rights, outs),
        plain_run::<A, F>(states, lefts, rights, outs),
        states[0].mix == Single(ZERO),
        !states[0].delta_mode,
        states[0].crossfade == 0,
        forall|c: int|
            0 <= c < 2 ==> (#[trigger] states[0].channels[c])[states[0].fft_index as int].delay@ == silence(
                fft_size(states[0].fft_index as int),
            ),
        0 <= k < lefts.len(),
    ensures
        ({
            let latency = fft_size(states[0].fft_index as int);
            &&& k < latency ==> outs[k].0.steps() == 0 && outs[k].1.steps() == 0
            &&& k >= latency ==> outs[k].0.steps() == lefts[k - latency].steps() && outs[k].1.steps()
                == rights[k - latency].steps()
        }),
{
    lemma_no_mix_is_only_delayed::<A, F>(states, lefts, rights, outs, k);
    let idx = states[0].fft_index as int;
    assert(states[0].channels[0][idx].delay@ == silence(fft_size(idx)));
    assert(states[0].channels[1][idx].delay@ == silence(fft_size(idx)));
}

// ----- Two runs of one signal -------------------------------------------------

proof fn lemma_path_step<A: Arith, F: Fourier>(
    s: SuppressorState<F>,
    t: SuppressorState<F>,
    left: Single,
    right: Single,
    s2: SuppressorState<F>,
    t2: SuppressorState<F>,
    out: (Single, Single),
    pair: (Single, Single),
)
    requires
        repeats::<A>(),
        transforms_alike::<F>(),
        s.wf(),
        t.wf(),
        paths_alike(s, t),
        run_step_of::<A, F>(s, left, right, s2, out),
        run_step_of::<A, F>(t, left, right, t2, pair),
    ensures
        paths_alike(s2, t2),
{
    let wet = lemma_step_is_mixed::<A, F>(s, left, right, s2, out);
    let vet = lemma_step_is_mixed::<A, F>(t, left, right, t2, pair);
    lemma_path_is_determined::<A, F>(s, t, left, right, s2, t2, out, pair, wet, vet);
}

/// The same signal leaves channels alike that were alike, however the two
/// suppressors mix and fade.
pub proof fn lemma_paths_stay_alike<A: Arith, F: Fourier>(
    states: Seq<SuppressorState<F>>,
    others: Seq<SuppressorState<F>>,
    lefts: Seq<Single>,
    rights: Seq<Single>,
    outs: Seq<(Single, Single)>,
    pairs: Seq<(Single, Single)>,
    k: int,
)
    requires
        repeats::<A>(),
        transforms_alike::<F>(),
        run_of::<A, F>(states, lefts, rights, outs),
        run_of::<A, F>(others, lefts, rights, pairs),
        paths_alike(states[0], others[0]),
        0 <= k <= lefts.len(),
    ensures
        paths_alike(states[k], others[k]),
    decreases k,
{
    if k > 0 {
        let j = k - 1;
        lemma_paths_stay_alike::<A, F>(states, others, lefts, rights, outs, pairs, j);
        assert(run_step_of::<A, F>(states[j], lefts[j], rights[j], states[j + 1], outs[j]));
        assert(run_step_of::<A, F>(others[j], lefts[j], rights[j], others[j + 1], pairs[j]));
        lemma_path_step::<A, F>(
            states[j],
            others[j],
            lefts[j],
            rights[j],
            states[k],
            others[k],
            outs[j],
            pairs[j],
        );
    }
}

/// At sample `k`, a suppressor whose channels are alike to those of another mixes
/// the same dry and wet.
proof fn lemma_same_parts<A: Arith, F: Fourier>(
    states: Seq<SuppressorState<F>>,
    others: Seq<SuppressorState<F>>,
    lefts: Seq<Single>,
    rights: Seq<Single>,
    outs: Seq<(Single, Single)>,
    pairs: Seq<(Single, Single)>,
    k: int,
    wet: (Single, Single),
) -> (vet: (Single, Single))
    requires
        repeats::<A>(),
        transforms_alike::<F>(),
        run_of::<A, F>(states, lefts, rights, outs),
        run_of::<A, F>(others, lefts, rights, pairs),
        paths_alike(states[0], others[0]),
        0 <= k < lefts.len(),
        suppressed_with::<A, F>(states[k], lefts[k], rights[k], states[k + 1], outs[k], wet),
    ensures
        same_pair(wet, vet),
        output_of::<A, F>(others[k], dry_at(states, k).0, vet.0, pairs[k].0),
        output_of::<A, F>(others[k], dry_at(states, k).1, vet.1, pairs[k].1),
{
    lemma_paths_stay_alike::<A, F>(states, others, lefts, rights, outs, pairs, k);
    lemma_run_keeps_setup::<A, F>(states, lefts, rights, outs, k);
    assert(run_step_of::<A, F>(others[k], lefts[k], rights[k], others[k + 1], pairs[k]));
    assert(states[k].wf());
    assert(others[k].wf());
    let vet = lemma_step_is_mixed::<A, F>(others[k], lefts[k], rights[k], others[k + 1], pairs[k]);
    lemma_path_is_determined::<A, F>(
        states[k],
        others[k],
        lefts[k],
        rights[k],
        states[k + 1],
        others[k + 1],
        outs[k],
        pairs[k],
        wet,
        vet,
    );
    vet
}

/// What the filters make of sample `k` of a run.
proof fn lemma_parts_at<A: Arith, F: Fourier>(
    states: Seq<SuppressorState<F>>,
    lefts: Seq<Single>,
    rights: Seq<Single>,
    outs: Seq<(Single, Single)>,
    k: int,
) -> (wet: (Single, Single))
    requires
        run_of::<A, F>(states, lefts, rights, outs),
        0 <= k < lefts.len(),
    ensures
        suppressed_with::<A, F>(states[k], lefts[k], rights[k], states[k + 1], outs[k], wet),
        output_of::<A, F>(states[k], dry_at(states, k).0, wet.0, outs[k].0),
        output_of::<A, F>(states[k], dry_at(states, k).1, wet.1, outs[k].1),
{
    lemma_run_keeps_setup::<A, F>(states, lefts, rights, outs, k);
    assert(run_step_of::<A, F>(states[k], lefts[k], rights[k], states[k + 1], outs[k]));
    lemma_step_is_mixed::<A, F>(states[k], lefts[k], rights[k], states[k + 1], outs[k])
}

/// `r` is the sound `x` at the loudness of a fade with `remaining` samples before
/// this one.
pub open spec fn fades_to<A: Arith>(remaining: usize, x: Single, r: Single) -> bool {
    exists|y: Single| same(x, y) && #[trigger] faded_of::<A>(remaining, y, r)
}

proof fn lemma_fade_over_output<A: Arith, F: Fourier>(
    s: SuppressorState<F>,
    t: SuppressorState<F>,
    dry: Single,
    wet: Single,
    vet: Single,
    out: Single,
    unfaded: Single,
)
    requires
        repeats::<A>(),
        same(wet, vet),
        s.mix == t.mix,
        s.delta_mode == t.delta_mode,
        t.crossfade == 0,
        output_of::<A, F>(s, dry, wet, out),
        output_of::<A, F>(t, dry, vet, unfaded),
    ensures
        fades_to::<A>(s.crossfade, unfaded, out),
        s.crossfade == 0 ==> same(unfaded, out),
{
    let m = choose|mixed: Single| #[trigger]
        io_of::<A>(dry, wet, s.mix, s.delta_mode, mixed) && faded_of::<A>(s.crossfade, mixed, out);
    let n = choose|mixed: Single| #[trigger]
        io_of::<A>(dry, vet, t.mix, t.delta_mode, mixed) && faded_of::<A>(t.crossfade, mixed, unfaded);
    lemma_io::<A>(dry, wet, vet, s.mix, s.delta_mode, m, n);
    assert(same(unfaded, m));
}

/// How much of a fade that began with `total` samples is left before sample `k`.
pub open spec fn fade_left(total: usize, k: int) -> usize {
    if total > k {
        (total - k) as usize
    } else {
        0
    }
}

/// A fade touches nothing but the loudness: a suppressor with a fade under way
/// gives what the same one gives without, turned down by the fade, until the fade
/// is over; from then on both give the same.
pub proof fn lemma_fade_only_scales<A: Arith, F: Fourier>(
    states: Seq<SuppressorState<F>>,
    others: Seq<SuppressorState<F>>,
    lefts: Seq<Single>,
    rights: Seq<Single>,
    outs: Seq<(Single, Single)>,
    unfaded: Seq<(Single, Single)>,
    k: int,
)
    requires
        repeats::<A>(),
        transforms_alike::<F>(),
        run_of::<A, F>(states, lefts, rights, outs),
        run_of::<A, F>(others, lefts, rights, unfaded),
        paths_alike(states[0], others[0]),
        states[0].mix == others[0].mix,
        states[0].delta_mode == others[0].delta_mode,
        others[0].crossfade == 0,
        0 <= k < lefts.len(),
    ensures
        states[k].crossfade == fade_left(states[0].crossfade, k),
        fades_to::<A>(fade_left(states[0].crossfade, k), unfaded[k].0, outs[k].0),
        fades_to::<A>(fade_left(states[0].crossfade, k), unfaded[k].1, outs[k].1),
        k >= states[0].crossfade ==> same_pair(outs[k], unfaded[k]),
{
    let wet = lemma_parts_at::<A, F>(states, lefts, rights, outs, k);
    let vet = lemma_same_parts::<A, F>(states, others, lefts, rights, outs, unfaded, k, wet);
    lemma_run_keeps_setup::<A, F>(states, lefts, rights, outs, k);
    lemma_run_keeps_setup::<A, F>(others, lefts, rights, unfaded, k);
    lemma_fade_over_output::<A, F>(
        states[k],
        others[k],
        dry_at(states, k).0,
        wet.0,
        vet.0,
        outs[k].0,
        unfaded[k].0,
    );
    lemma_fade_over_output::<A, F>(
        states[k],
        others[k],
        dry_at(states, k).1,
        wet.1,
        vet.1,
        outs[k].1,
        unfaded[k].1,
    );
}

/// A difference goes by the values of two plain numbers; which sign a zero bears
/// makes none.
pub open spec fn differences_go_by_value<A: Arith>() -> bool {
    forall|a: Single, b: Single, c: Single, d: Single, r: Single, q: Single|
        plain(a) && plain(b) && plain(c) && plain(d) && a.steps() == c.steps() && b.steps() == d.steps()
            && #[trigger] minus_of::<A>(a, b, r) && #[trigger] minus_of::<A>(c, d, q) ==> r.steps() == q.steps()
}

proof fn lemma_delta_output<A: Arith, F: Fourier>(
    s: SuppressorState<F>,
    wet_only: SuppressorState<F>,
    dry_only: SuppressorState<F>,
    dry: Single,
    wet: Single,
    taken_out: Single,
    w: Single,
    d: Single,
    diff: Single,
)
    requires
        neutral::<A>(),
        differences_go_by_value::<A>(),
        plain(dry),
        plain(wet),
        s.delta_mode,
        s.crossfade == 0,
        !wet_only.delta_mode,
        wet_only.mix == Single(ONE),
        wet_only.crossfade == 0,
        !dry_only.delta_mode,
        dry_only.mix == Single(ZERO),
        dry_only.crossfade == 0,
        output_of::<A, F>(s, dry, wet, taken_out),
        output_of::<A, F>(wet_only, dry, wet, w),
        output_of::<A, F>(dry_only, dry, wet, d),
        minus_of::<A>(d, w, diff),
    ensures
        taken_out.steps() == diff.steps(),
{
    lemma_output_is_wet::<A, F>(wet_only, dry, wet, w);
    lemma_output_is_dry::<A, F>(dry_only, dry, wet, d);
    assert(minus_of::<A>(dry, wet, taken_out));
}

/// What one hears of what is taken out is exactly the dry signal less the wet one:
/// of three suppressors that hear the same, one in delta mode, one all wet and one
/// all dry, the first gives the third less the second, sample by sample.
pub proof fn lemma_delta_is_dry_less_wet<A: Arith, F: Fourier>(
    states: Seq<SuppressorState<F>>,
    wets: Seq<SuppressorState<F>>,
    drys: Seq<SuppressorState<F>>,
    lefts: Seq<Single>,
    rights: Seq<Single>,
    taken_out: Seq<(Single, Single)>,
    wet_outs: Seq<(Single, Single)>,
    dry_outs: Seq<(Single, Single)>,
    k: int,
    diff: (Single, Single),
)
    requires
        repeats::<A>(),
        transforms_alike::<F>(),
        neutral::<A>(),
        differences_go_by_value::<A>(),
        run_of::<A, F>(states, lefts, rights, taken_out),
        run_of::<A, F>(wets, lefts, rights, wet_outs),
        run_of::<A, F>(drys, lefts, rights, dry_outs),
        plain_run::<A, F>(states, lefts, rights, taken_out),
        paths_alike(states[0], wets[0]),
        paths_alike(states[0], drys[0]),
        states[0].delta_mode,
        states[0].crossfade == 0,
        !wets[0].delta_mode,
        wets[0].mix == Single(ONE),
        wets[0].crossfade == 0,
        !drys[0].delta_mode,
        drys[0].mix == Single(ZERO),
        drys[0].crossfade == 0,
        0 <= k < lefts.len(),
        minus_of::<A>(dry_outs[k].0, wet_outs[k].0, diff.0),
        minus_of::<A>(dry_outs[k].1, wet_outs[k].1, diff.1),
    ensures
        taken_out[k].0.steps() == diff.0.steps(),
        taken_out[k].1.steps() == diff.1.steps(),
{
    let dry = dry_at(states, k);
    lemma_run_keeps_setup::<A, F>(states, lefts, rights, taken_out, k);
    lemma_run_keeps_setup::<A, F>(wets, lefts, rights, wet_outs, k);
    lemma_run_keeps_setup::<A, F>(drys, lefts, rights, dry_outs, k);
    lemma_dry_is_plain::<A, F>(states, lefts, rights, taken_out, k);
    assert(wet_is_plain::<A, F>(states[k], lefts[k], rights[k], states[k + 1], taken_out[k]));
    let wet = lemma_parts_at::<A, F>(states, lefts, rights, taken_out, k);
    let vet = lemma_same_parts::<A, F>(states, wets, lefts, rights, taken_out, wet_outs, k, wet);
    assert(vet == wet);
    let vet = lemma_same_parts::<A, F>(states, drys, lefts, rights, taken_out, dry_outs, k, wet);
    assert(vet == wet);
    lemma_delta_output::<A, F>(
        states[k],
        wets[k],
        drys[k],
        dry.0,
        wet.0,
        taken_out[k].0,
        wet_outs[k].0,
        dry_outs[k].0,
        diff.0,
    );
    lemma_delta_output::<A, F>(
        states[k],
        wets[k],
        drys[k],
        dry.1,
        wet.1,
        taken_out[k].1,
        wet_outs[k].1,
        dry_outs[k].1,
        diff.1,
    );
}

// ----- Starting over ----------------------------------------------------------

/// Another sample rate starts over: what comes out afterwards is what a suppressor
/// gives that is fresh at that rate and set the same, turned down by a fade from
/// its beginning.
pub proof fn lemma_rate_change_starts_over<A: Arith, F: Fourier>(
    before: SuppressorState<F>,
    rate: Single,
    states: Seq<SuppressorState<F>>,
    others: Seq<SuppressorState<F>>,
    lefts: Seq<Single>,
    rights: Seq<Single>,
    outs: Seq<(Single, Single)>,
    unfaded: Seq<(Single, Single)>,
    k: int,
)
    requires
        repeats::<A>(),
        transforms_alike::<F>(),
        rate_set_of::<A, F>(before, rate, states[0]),
        forall|d: Single| #[trigger]
            minus_of::<A>(before.sample_rate, rate, d) ==> !d.absolute().below(Single(ONE)),
        others[0].fresh_channels::<A>(rate),
        same_settings(before, others[0]),
        others[0].crossfade == 0,
        run_of::<A, F>(states, lefts, rights, outs),
        run_of::<A, F>(others, lefts, rights, unfaded),
        0 <= k < lefts.len(),
    ensures
        states[k].crossfade == fade_left(CROSSFADE_LEN, k),
        fades_to::<A>(fade_left(CROSSFADE_LEN, k), unfaded[k].0, outs[k].0),
        fades_to::<A>(fade_left(CROSSFADE_LEN, k), unfaded[k].1, outs[k].1),
        k >= CROSSFADE_LEN ==> same_pair(outs[k], unfaded[k]),
{
    lemma_fresh_paths_are_alike::<A, F>(states[0], others[0], rate);
    lemma_fade_only_scales::<A, F>(states, others, lefts, rights, outs, unfaded, k);
}

/// A reset takes a suppressor back to the start: nothing tells it from one that is
/// fresh, of the same make and set the same.
pub proof fn lemma_reset_is_as_fresh<A: Arith, F: Fourier>(
    s: SuppressorState<F>,
    r: SuppressorState<F>,
    fresh: SuppressorState<F>,
    rate: Single,
)
    requires
        s.wf(),
        reset_of(s, r),
        fresh.fresh_channels::<A>(rate),
        fresh.applied == unity_gains(),
        fresh.sample_rate == s.sample_rate,
        fresh.frame_counter == 0,
        fresh.crossfade == 0,
        same_settings(s, fresh),
        forall|c: int, i: int|
            0 <= c < 2 && 0 <= i < SIZES ==> same_make(#[trigger] s.channels[c][i], fresh.channels[c][i]),
    ensures
        suppressors_alike(r, fresh),
{
    assert forall|c: int, i: int| 0 <= c < 2 && 0 <= i < SIZES implies channels_alike(
        #[trigger] r.channels[c][i],
        fresh.channels[c][i],
    ) by {
        assert(same_make(s.channels[c][i], fresh.channels[c][i]));
        assert(s.channels[c][i].wf(fft_size(i)));
        assert(fresh.channels[c][i].fresh::<A>(FFT_SIZES@[i], rate));
        assert(FFT_SIZES@[0] == 1024 && FFT_SIZES@[1] == 2048 && FFT_SIZES@[2] == 4096 && FFT_SIZES@[3]
            == 8192);
        assert(r.channels[c][i].cleared(&s.channels[c][i]));
        lemma_engine_is_whole(r.channels[c][i].analysis);
        lemma_detector_is_whole(r.channels[c][i].detector);
        lemma_detector_is_whole(fresh.channels[c][i].detector);
    }
}

// ----- Channels that are not linked -------------------------------------------

/// Two suppressors whose channels are not linked, and whose channel `c` no sample
/// tells apart.
pub open spec fn sides_alike<F: Fourier>(s: SuppressorState<F>, t: SuppressorState<F>, c: int) -> bool {
    &&& same_settings(s, t)
    &&& !s.stereo_linked
    &&& s.crossfade == t.crossfade
    &&& forall|i: int|
        0 <= i < SIZES ==> channels_alike(#[trigger] s.channels[c][i], t.channels[c][i])
}

proof fn lemma_alone<A: Arith>(
    s: CascadeState,
    own: Option<ChannelFrame>,
    left: Option<ChannelFrame>,
    right: Option<ChannelFrame>,
    oversampling: bool,
    r: CascadeState,
)
    requires
        own is None ==> left is None && right is None,
        filters_updated_of::<A>(s, own, left, right, false, oversampling, r),
    ensures
        filters_updated_of::<A>(s, own, own, own, false, oversampling, r),
{
}

/// On channels that are not linked, the same samples on one of them come out the
/// same on it, whatever the other one hears.
pub proof fn lemma_side_is_determined<A: Arith, F: Fourier>(
    s: SuppressorState<F>,
    t: SuppressorState<F>,
    c: int,
    input: (Single, Single),
    other: (Single, Single),
    s2: SuppressorState<F>,
    t2: SuppressorState<F>,
    out: (Single, Single),
    pair: (Single, Single),
)
    requires
        repeats::<A>(),
        transforms_alike::<F>(),
        s.wf(),
        t.wf(),
        0 <= c < 2,
        sides_alike(s, t, c),
        suppressed_of::<A, F>(s, input.0, input.1, s2, out),
        suppressed_of::<A, F>(t, other.0, other.1, t2, pair),
        c == 0 ==> input.0 == other.0,
        c == 1 ==> input.1 == other.1,
    ensures
        c == 0 ==> same(out.0, pair.0),
        c == 1 ==> same(out.1, pair.1),
        sides_alike(s2, t2, c),
{
    let idx = s.fft_index as int;
    let wet = lemma_sample_is_mixed::<A, F>(s, input.0, input.1, s2, out);
    let vet = lemma_sample_is_mixed::<A, F>(t, other.0, other.1, t2, pair);
    let (l, r) = lemma_sides::<A, F>(s, input.0, input.1, s2, out, wet);
    let (m, q) = lemma_sides::<A, F>(t, other.0, other.1, t2, pair, vet);
    lemma_frames_in_lockstep::<A, F>(
        s,
        input.0,
        input.1,
        l.mid,
        r.mid,
        l.dry,
        r.dry,
        l.frame,
        r.frame,
    );
    lemma_frames_in_lockstep::<A, F>(
        t,
        other.0,
        other.1,
        m.mid,
        q.mid,
        m.dry,
        q.dry,
        m.frame,
        q.frame,
    );
    lemma_sample_keeps_setup::<A, F>(s, input.0, input.1, s2, out);
    lemma_sample_keeps_setup::<A, F>(t, other.0, other.1, t2, pair);
    let (g_l, g_r) = choose|g_l: CascadeState, g_r: CascadeState|
        {
            &&& #[trigger] filters_updated_of::<A>(
                l.mid.bands@,
                l.frame,
                l.frame,
                r.frame,
                s.stereo_linked,
                s.oversampling,
                g_l,
            )
            &&& #[trigger] filters_updated_of::<A>(
                r.mid.bands@,
                r.frame,
                l.frame,
                r.frame,
                s.stereo_linked,
                s.oversampling,
                g_r,
            )
            &&& wet_of::<A>(s.oversampling, g_l, l.dry, s2.channels[0][idx].bands@, wet.0)
            &&& wet_of::<A>(s.oversampling, g_r, r.dry, s2.channels[1][idx].bands@, wet.1)
        };
    let (h_l, h_r) = choose|g_l: CascadeState, g_r: CascadeState|
        {
            &&& #[trigger] filters_updated_of::<A>(
                m.mid.bands@,
                m.frame,
                m.frame,
                q.frame,
                t.stereo_linked,
                t.oversampling,
                g_l,
            )
            &&& #[trigger] filters_updated_of::<A>(
                q.mid.bands@,
                q.frame,
                m.frame,
                q.frame,
                t.stereo_linked,
                t.oversampling,
                g_r,
            )
            &&& wet_of::<A>(t.oversampling, g_l, m.dry, t2.channels[0][idx].bands@, vet.0)
            &&& wet_of::<A>(t.oversampling, g_r, q.dry, t2.channels[1][idx].bands@, vet.1)
        };
    assert(channels_alike(s.channels[c][idx], t.channels[c][idx]));
    if c == 0 {
        lemma_one_side::<A, F>(
            s,
            t,
            0,
            input.0,
            l,
            m,
            s2,
            t2,
            g_l,
            h_l,
            l.frame,
            r.frame,
            m.frame,
            q.frame,
            wet.0,
            vet.0,
            out.0,
            pair.0,
        );
    } else {
        lemma_one_side::<A, F>(
            s,
            t,
            1,
            input.1,
            r,
            q,
            s2,
            t2,
            g_r,
            h_r,
            l.frame,
            r.frame,
            m.frame,
            q.frame,
            wet.1,
            vet.1,
            out.1,
            pair.1,
        );
    }
    assert forall|i: int| 0 <= i < SIZES implies channels_alike(
        #[trigger] s2.channels[c][i],
        t2.channels[c][i],
    ) by {
        assert(channels_alike(s.channels[c][i], t.channels[c][i]));
    }
}

proof fn lemma_one_side<A: Arith, F: Fourier>(
    s: SuppressorState<F>,
    t: SuppressorState<F>,
    c: int,
    x: Single,
    a: Side<F>,
    b: Side<F>,
    s2: SuppressorState<F>,
    t2: SuppressorState<F>,
    g: CascadeState,
    h: CascadeState,
    left_s: Option<ChannelFrame>,
    right_s: Option<ChannelFrame>,
    left_t: Option<ChannelFrame>,
    right_t: Option<ChannelFrame>,
    wet: Single,
    vet: Single,
    out: Single,
    pair: Single,
)
    requires
        repeats::<A>(),
        transforms_alike::<F>(),
        same_settings(s, t),
        !s.stereo_linked,
        s.crossfade == t.crossfade,
        channels_alike(s.channels[c][s.fft_index as int], t.channels[c][s.fft_index as int]),
        channel_step_of::<A, F>(s.channels[c][s.fft_index as int], x, s.params, a.mid, a.dry, a.frame),
        channel_step_of::<A, F>(t.channels[c][s.fft_index as int], x, t.params, b.mid, b.dry, b.frame),
        a.frame is None ==> left_s is None && right_s is None,
        b.frame is None ==> left_t is None && right_t is None,
        filters_updated_of::<A>(a.mid.bands@, a.frame, left_s, right_s, false, s.oversampling, g),
        filters_updated_of::<A>(b.mid.bands@, b.frame, left_t, right_t, false, t.oversampling, h),
        wet_of::<A>(s.oversampling, g, a.dry, s2.channels[c][s.fft_index as int].bands@, wet),
        wet_of::<A>(t.oversampling, h, b.dry, t2.channels[c][s.fft_index as int].bands@, vet),
        output_of::<A, F>(s, a.dry, wet, out),
        output_of::<A, F>(t, b.dry, vet, pair),
    ensures
        same(out, pair),
        engines_alike(a.mid.analysis, b.mid.analysis),
        detectors_alike(a.mid.detector, b.mid.detector),
        a.mid.delay@ == b.mid.delay@,
        cascades_same(
            s2.channels[c][s.fft_index as int].bands@,
            t2.channels[c][s.fft_index as int].bands@,
        ),
{
    let idx = s.fft_index as int;
    lemma_channel_step::<A, F>(
        s.channels[c][idx],
        t.channels[c][idx],
        x,
        s.params,
        a.mid,
        b.mid,
        a.dry,
        b.dry,
        a.frame,
        b.frame,
    );
    lemma_alone::<A>(a.mid.bands@, a.frame, left_s, right_s, s.oversampling, g);
    lemma_alone::<A>(b.mid.bands@, b.frame, left_t, right_t, s.oversampling, h);
    lemma_processor_is_whole(a.mid.bands);
    lemma_filters_updated::<A>(
        a.mid.bands@,
        b.mid.bands@,
        a.frame,
        a.frame,
        a.frame,
        b.frame,
        b.frame,
        b.frame,
        false,
        s.oversampling,
        g,
        h,
    );
    lemma_wet::<A>(
        s.oversampling,
        g,
        h,
        a.dry,
        s2.channels[c][idx].bands@,
        wet,
        t2.channels[c][idx].bands@,
        vet,
    );
    lemma_output::<A, F>(s, t, a.dry, wet, vet, out, pair);
}

proof fn lemma_side_step<A: Arith, F: Fourier>(
    s: SuppressorState<F>,
    t: SuppressorState<F>,
    c: int,
    input: (Single, Single),
    other: (Single, Single),
    s2: SuppressorState<F>,
    t2: SuppressorState<F>,
    out: (Single, Single),
    pair: (Single, Single),
)
    requires
        repeats::<A>(),
        transforms_alike::<F>(),
        s.wf(),
        t.wf(),
        0 <= c < 2,
        sides_alike(s, t, c),
        run_step_of::<A, F>(s, input.0, input.1, s2, out),
        run_step_of::<A, F>(t, other.0, other.1, t2, pair),
        c == 0 ==> input.0 == other.0,
        c == 1 ==> input.1 == other.1,
    ensures
        c == 0 ==> same(out.0, pair.0),
        c == 1 ==> same(out.1, pair.1),
        sides_alike(s2, t2, c),
{
    reveal(run_step_of);
    lemma_side_is_determined::<A, F>(s, t, c, input, other, s2, t2, out, pair);
}

proof fn lemma_sides_so_far<A: Arith, F: Fourier>(
    states: Seq<SuppressorState<F>>,
    others: Seq<SuppressorState<F>>,
    c: int,
    lefts: Seq<Single>,
    rights: Seq<Single>,
    other_lefts: Seq<Single>,
    other_rights: Seq<Single>,
    outs: Seq<(Single, Single)>,
    pairs: Seq<(Single, Single)>,
    k: int,
)
    requires
        repeats::<A>(),
        transforms_alike::<F>(),
        0 <= c < 2,
        run_of::<A, F>(states, lefts, rights, outs),
        run_of::<A, F>(others, other_lefts, other_rights, pairs),
        other_lefts.len() == lefts.len(),
        sides_alike(states[0], others[0], c),
        c == 0 ==> lefts == other_lefts,
        c == 1 ==> rights == other_rights,
        0 <= k <= lefts.len(),
    ensures
        sides_alike(states[k], others[k], c),
        k > 0 && c == 0 ==> same(outs[k - 1].0, pairs[k - 1].0),
        k > 0 && c == 1 ==> same(outs[k - 1].1, pairs[k - 1].1),
    decreases k,
{
    if k > 0 {
        let j = k - 1;
        lemma_sides_so_far::<A, F>(
            states,
            others,
            c,
            lefts,
            rights,
            other_lefts,
            other_rights,
            outs,
            pairs,
            j,
        );
        assert(states[j].wf());
        assert(others[j].wf());
        assert(run_step_of::<A, F>(states[j], lefts[j], rights[j], states[j + 1], outs[j]));
        assert(run_step_of::<A, F>(
            others[j],
            other_lefts[j],
            other_rights[j],
            others[j + 1],
            pairs[j],
        ));
        lemma_side_step::<A, F>(
            states[j],
            others[j],
            c,
            (lefts[j], rights[j]),
            (other_lefts[j], other_rights[j]),
            states[k],
            others[k],
            outs[j],
            pairs[j],
        );
    }
}

/// Channels that are not linked do not hear each other: two suppressors that start
/// alike on the left, and hear the same there, give the same there, whatever they
/// hear on the right.
pub proof fn lemma_left_ignores_right<A: Arith, F: Fourier>(
    states: Seq<SuppressorState<F>>,
    others: Seq<SuppressorState<F>>,
    lefts: Seq<Single>,
    rights: Seq<Single>,
    other_rights: Seq<Single>,
    outs: Seq<(Single, Single)>,
    pairs: Seq<(Single, Single)>,
    k: int,
)
    requires
        repeats::<A>(),
        transforms_alike::<F>(),
        run_of::<A, F>(states, lefts, rights, outs),
        run_of::<A, F>(others, lefts, other_rights, pairs),
        sides_alike(states[0], others[0], 0),
        0 <= k < lefts.len(),
    ensures
        same(outs[k].0, pairs[k].0),
{
    lemma_sides_so_far::<A, F>(
        states,
        others,
        0,
        lefts,
        rights,
        lefts,
        other_rights,
        outs,
        pairs,
        k + 1,
    );
}

/// And the other way round: what comes out on the right goes by what goes in on the
/// right.
pub proof fn lemma_right_ignores_left<A: Arith, F: Fourier>(
    states: Seq<SuppressorState<F>>,
    others: Seq<SuppressorState<F>>,
    lefts: Seq<Single>,
    other_lefts: Seq<Single>,
    rights: Seq<Single>,
    outs: Seq<(Single, Single)>,
    pairs: Seq<(Single, Single)>,
    k: int,
)
    requires
        repeats::<A>(),
        transforms_alike::<F>(),
        run_of::<A, F>(states, lefts, rights, outs),
        run_of::<A, F>(others, other_lefts, rights, pairs),
        sides_alike(states[0], others[0], 1),
        0 <= k < rights.len(),
    ensures
        same(outs[k].1, pairs[k].1),
{
    lemma_sides_so_far::<A, F>(
        states,
        others,
        1,
        lefts,
        rights,
        other_lefts,
        rights,
        outs,
        pairs,
        k + 1,
    );
}

} // verus!
