//! What the plugin does when its host calls.

use vstd::prelude::*;
use crate::arith::{times_of, Arith};
use crate::dsp::agreement::{lemma_suppressor_is_determined, suppressors_alike};
use crate::dsp::analysis::{AnalysisFrame, Fourier};
use crate::dsp::determinism::{repeats, same, same_pair, transforms_alike};
use crate::dsp::suppressor::{
    db_to_linear, fft_size, frames_offered, linear_of, rate_set_of, reset_of, suppressed_of, with_fft_index,
    with_params, DspParams, ResonanceSuppressor, SuppressorState, FFT_SIZES, SIZES,
};
use crate::numbers::ZERO;
use crate::params::{fft_index, fft_index_of, ResoVoidParams};
use crate::single::Single;

verus! {

/// The sample rate before the host has named one, `44100`.
pub const FIRST_SAMPLE_RATE: u32 = 0x472c_4400;

/// The plugin.
pub struct ResoVoid<F: Fourier> {
    suppressor: ResonanceSuppressor<F>,
    current_fft_index: usize,
}

/// The pair of samples that goes in, given how many channels there are: a single
/// channel goes to both sides, and none is silence.
pub open spec fn inputs(channels: int, first: Single, second: Single) -> (Single, Single) {
    let left = if channels >= 1 {
        first
    } else {
        Single(ZERO)
    };
    (
        left,
        if channels >= 2 {
            second
        } else {
            left
        },
    )
}

/// With the parameters `p`, a sample of every channel takes the suppressor from
/// `s` to `r` and comes out as `out`.
pub open spec fn processed_of<A: Arith, F: Fourier>(
    s: SuppressorState<F>,
    p: ResoVoidParams,
    input: (Single, Single),
    r: SuppressorState<F>,
    out: (Single, Single),
) -> bool {
    exists|d: DspParams, gain: Single, raw: (Single, Single)|
        {
            &&& #[trigger] p.drives(d)
            &&& #[trigger] linear_of::<A>(p.output_gain, gain)
            &&& #[trigger] suppressed_of::<A, F>(with_params(s, d), input.0, input.1, r, raw)
            &&& times_of::<A>(raw.0, gain, out.0)
            &&& times_of::<A>(raw.1, gain, out.1)
        }
}

/// One sample after the other, each with the parameters of its own moment, takes
/// the suppressor from each of `states` to the next.
pub open spec fn played_of<A: Arith, F: Fourier>(
    states: Seq<SuppressorState<F>>,
    ps: Seq<ResoVoidParams>,
    ins: Seq<(Single, Single)>,
    outs: Seq<(Single, Single)>,
) -> bool {
    &&& states.len() == ps.len() + 1
    &&& ins.len() == ps.len()
    &&& outs.len() == ps.len()
    &&& forall|k: int| 0 <= k < states.len() ==> (#[trigger] states[k]).wf()
    &&& forall|k: int|
        0 <= k < ps.len() ==> processed_of::<A, F>(
            states[k],
            #[trigger] ps[k],
            ins[k],
            states[k + 1],
            outs[k],
        )
}

/// A block of samples takes the suppressor from `s` to `r`: the window size that
/// `fft_param` asks for is taken up, and then one sample after the other.
pub open spec fn block_of<A: Arith, F: Fourier>(
    s: SuppressorState<F>,
    fft_param: int,
    ps: Seq<ResoVoidParams>,
    ins: Seq<(Single, Single)>,
    r: SuppressorState<F>,
    outs: Seq<(Single, Single)>,
) -> bool {
    exists|states: Seq<SuppressorState<F>>|
        {
            &&& #[trigger] played_of::<A, F>(states, ps, ins, outs)
            &&& states[0] == with_fft_index(s, fft_index_of(fft_param))
            &&& states.last() == r
        }
}

/// The pairs of samples that go in, given how many channels there are.
pub open spec fn block_inputs(channels: int, first: Seq<Single>, second: Seq<Single>) -> Seq<(Single, Single)> {
    Seq::new(first.len(), |i: int| inputs(channels, first[i], second[i]))
}

impl<F: Fourier> ResoVoid<F> {
    /// The signal path.
    pub closed spec fn path(&self) -> SuppressorState<F> {
        self.suppressor@
    }

    /// The window size that the host was last told of is the one in use.
    pub closed spec fn wf(&self) -> bool {
        &&& self.suppressor@.wf()
        &&& self.current_fft_index == self.suppressor@.fft_index
    }

    /// A plugin that sends its frames through `viz_producer`.
    pub fn new<A: Arith>(viz_producer: rtrb::Producer<AnalysisFrame>) -> (r: Self)
        ensures
            r.wf(),
            r.path().fresh::<A>(Single(FIRST_SAMPLE_RATE)),
            r.path().offered == frames_offered(viz_producer),
    {
        ResoVoid {
            suppressor: ResonanceSuppressor::new::<A>(Single(FIRST_SAMPLE_RATE), viz_producer),
            current_fft_index: 1,
        }
    }

    /// Gets ready for a stream of this sample rate, and gives the latency to
    /// report.
    pub fn activate<A: Arith>(&mut self, sample_rate: Single, fft_param: i32) -> (latency: u32)
        requires
            old(self).wf(),
        ensures
            final(self).wf(),
            exists|mid: SuppressorState<F>| #[trigger]
                rate_set_of::<A, F>(old(self).path(), sample_rate, mid) && final(self).path()
                    == with_fft_index(mid, fft_index_of(fft_param as int)),
            latency == fft_size(fft_index_of(fft_param as int)),
    {
        self.suppressor.set_sample_rate::<A>(sample_rate);
        let ghost mid = self.suppressor@;
        let idx = fft_index(fft_param);
        self.current_fft_index = idx;
        self.suppressor.set_fft_size_index(idx);
        assert(rate_set_of::<A, F>(old(self).path(), sample_rate, mid));
        self.reported_latency()
    }

    /// Follows the window size parameter at the start of a block. Where it has
    /// changed, gives the latency to report.
    pub fn begin_block(&mut self, fft_param: i32) -> (latency: Option<u32>)
        requires
            old(self).wf(),
        ensures
            final(self).wf(),
            final(self).path() == with_fft_index(
                old(self).path(),
                fft_index_of(fft_param as int),
            ),
            latency == if fft_index_of(fft_param as int) == old(self).path().fft_index {
                None
            } else {
                Some(fft_size(fft_index_of(fft_param as int)) as u32)
            },
    {
        let idx = fft_index(fft_param);
        if idx != self.current_fft_index {
            self.current_fft_index = idx;
            self.suppressor.set_fft_size_index(idx);
            Some(self.reported_latency())
        } else {
            None
        }
    }

    fn reported_latency(&self) -> (latency: u32)
        requires
            self.wf(),
        ensures
            latency == fft_size(self.path().fft_index as int),
    {
        let n = self.suppressor.latency();
        assert(FFT_SIZES@[0] == 1024 && FFT_SIZES@[1] == 2048 && FFT_SIZES@[2] == 4096
            && FFT_SIZES@[3] == 8192);
        assert(n <= 8192);
        n as u32
    }

    /// Forgets all samples.
    pub fn reset(&mut self)
        requires
            old(self).wf(),
        ensures
            final(self).wf(),
            reset_of(old(self).path(), final(self).path()),
    {
        self.suppressor.reset();
    }

    /// Processes one sample of every channel, of which there are `channels`. The
    /// results belong to the first two of them.
    pub fn process_frame<A: Arith>(
        &mut self,
        p: &ResoVoidParams,
        channels: usize,
        first: Single,
        second: Single,
    ) -> (out: (Single, Single))
        requires
            old(self).wf(),
        ensures
            final(self).wf(),
            processed_of::<A, F>(
                old(self).path(),
                *p,
                inputs(channels as int, first, second),
                final(self).path(),
                out,
            ),
    {
        let d = p.dsp_params();
        self.suppressor.set_params(d);
        let gain = db_to_linear::<A>(p.output_gain);
        let left = if channels >= 1 {
            first
        } else {
            Single(ZERO)
        };
        let right = if channels >= 2 {
            second
        } else {
            left
        };
        let raw = self.suppressor.process_sample::<A>(left, right);
        let ghost input = inputs(channels as int, first, second);
        assert(suppressed_of::<A, F>(
            with_params(old(self).path(), d),
            input.0,
            input.1,
            self.path(),
            raw,
        ));
        (A::times(raw.0, gain), A::times(raw.1, gain))
    }

    /// Processes a block in place, with the parameters of every sample in `params`.
    /// There are `channels` channels, of which the first two are taken up. Where the
    /// window size has changed, gives the latency to report: one window.
    pub fn process<A: Arith>(
        &mut self,
        fft_param: i32,
        params: &Vec<ResoVoidParams>,
        channels: usize,
        first: &mut Vec<Single>,
        second: &mut Vec<Single>,
    ) -> (latency: Option<u32>)
        requires
            old(self).wf(),
            old(first)@.len() == params@.len(),
            old(second)@.len() == params@.len(),
        ensures
            final(self).wf(),
            latency == if fft_index_of(fft_param as int) == old(self).path().fft_index {
                None
            } else {
                Some(fft_size(fft_index_of(fft_param as int)) as u32)
            },
            exists|outs: Seq<(Single, Single)>|
                {
                    &&& #[trigger] block_of::<A, F>(
                        old(self).path(),
                        fft_param as int,
                        params@,
                        block_inputs(channels as int, old(first)@, old(second)@),
                        final(self).path(),
                        outs,
                    )
                    &&& final(first)@ == if channels >= 1 {
                        outs.map_values(|o: (Single, Single)| o.0)
                    } else {
                        old(first)@
                    }
                    &&& final(second)@ == if channels >= 2 {
                        outs.map_values(|o: (Single, Single)| o.1)
                    } else {
                        old(second)@
                    }
                },
    {
        let latency = self.begin_block(fft_param);
        let n: usize = params.len();
        let ghost ins = block_inputs(channels as int, first@, second@);
        let ghost states = seq![self.path()];
        let ghost outs: Seq<(Single, Single)> = Seq::empty();
        for i in 0..n
            invariant
                n == params@.len(),
                self.wf(),
                first@.len() == n,
                second@.len() == n,
                old(first)@.len() == n,
                old(second)@.len() == n,
                ins == block_inputs(channels as int, old(first)@, old(second)@),
                states.len() == i + 1,
                states[0] == with_fft_index(old(self).path(), fft_index_of(fft_param as int)),
                states[i as int] == self.path(),
                outs.len() == i,
                forall|k: int| 0 <= k < states.len() ==> (#[trigger] states[k]).wf(),
                forall|k: int|
                    0 <= k < i ==> processed_of::<A, F>(
                        states[k],
                        #[trigger] params@[k],
                        ins[k],
                        states[k + 1],
                        outs[k],
                    ),
                forall|k: int|
                    0 <= k < n ==> #[trigger] first@[k] == if k < i && channels >= 1 {
                        outs[k].0
                    } else {
                        old(first)@[k]
                    },
                forall|k: int|
                    0 <= k < n ==> #[trigger] second@[k] == if k < i && channels >= 2 {
                        outs[k].1
                    } else {
                        old(second)@[k]
                    },
        {
            let ghost before = states;
            let ghost earlier = outs;
            let out = self.process_frame::<A>(&params[i], channels, first[i], second[i]);
            if channels >= 1 {
                first[i] = out.0;
            }
            if channels >= 2 {
                second[i] = out.1;
            }
            proof {
                states = before.push(self.path());
                outs = earlier.push(out);
                assert forall|k: int| 0 <= k < i + 1 implies processed_of::<A, F>(
                    states[k],
                    #[trigger] params@[k],
                    ins[k],
                    states[k + 1],
                    outs[k],
                ) by {
                    if k < i {
                        assert(states[k] == before[k] && states[k + 1] == before[k + 1] && outs[k] == earlier[k]);
                    }
                }
            }
        }
        proof {
            assert(played_of::<A, F>(states, params@, ins, outs));
            assert(states.last() == self.path());
            assert(block_of::<A, F>(
                old(self).path(),
                fft_param as int,
                params@,
                ins,
                self.path(),
                outs,
            ));
            assert(first@ =~= if channels >= 1 {
                outs.map_values(|o: (Single, Single)| o.0)
            } else {
                old(first)@
            });
            assert(second@ =~= if channels >= 2 {
                outs.map_values(|o: (Single, Single)| o.1)
            } else {
                old(second)@
            });
        }
        latency
    }
}

// ----- Laws -------------------------------------------------------------------

proof fn lemma_frame_keeps_window<A: Arith, F: Fourier>(
    s: SuppressorState<F>,
    p: ResoVoidParams,
    input: (Single, Single),
    r: SuppressorState<F>,
    out: (Single, Single),
)
    requires
        processed_of::<A, F>(s, p, input, r, out),
    ensures
        r.fft_index == s.fft_index,
{
}

proof fn lemma_play_keeps_window<A: Arith, F: Fourier>(
    states: Seq<SuppressorState<F>>,
    ps: Seq<ResoVoidParams>,
    ins: Seq<(Single, Single)>,
    outs: Seq<(Single, Single)>,
    k: int,
)
    requires
        played_of::<A, F>(states, ps, ins, outs),
        0 <= k <= ps.len(),
    ensures
        states[k].fft_index == states[0].fft_index,
    decreases k,
{
    if k > 0 {
        lemma_play_keeps_window::<A, F>(states, ps, ins, outs, k - 1);
        assert(processed_of::<A, F>(states[k - 1], ps[k - 1], ins[k - 1], states[k - 1 + 1], outs[k - 1]));
        lemma_frame_keeps_window::<A, F>(states[k - 1], ps[k - 1], ins[k - 1], states[k], outs[k - 1]);
    }
}

/// A block may be cut anywhere: what it gives can be had from its two parts, one
/// after the other, under the same window size.
pub proof fn lemma_block_may_be_cut<A: Arith, F: Fourier>(
    s: SuppressorState<F>,
    fft_param: int,
    ps: Seq<ResoVoidParams>,
    ins: Seq<(Single, Single)>,
    r: SuppressorState<F>,
    outs: Seq<(Single, Single)>,
    k: int,
) -> (mid: SuppressorState<F>)
    requires
        block_of::<A, F>(s, fft_param, ps, ins, r, outs),
        0 <= k <= ps.len(),
    ensures
        block_of::<A, F>(s, fft_param, ps.take(k), ins.take(k), mid, outs.take(k)),
        block_of::<A, F>(mid, fft_param, ps.skip(k), ins.skip(k), r, outs.skip(k)),
{
    let states = choose|states: Seq<SuppressorState<F>>|
        {
            &&& #[trigger] played_of::<A, F>(states, ps, ins, outs)
            &&& states[0] == with_fft_index(s, fft_index_of(fft_param))
            &&& states.last() == r
        };
    let front = states.take(k + 1);
    let back = states.skip(k);
    assert(played_of::<A, F>(front, ps.take(k), ins.take(k), outs.take(k))) by {
        assert forall|j: int| 0 <= j < k implies processed_of::<A, F>(
            front[j],
            #[trigger] ps.take(k)[j],
            ins.take(k)[j],
            front[j + 1],
            outs.take(k)[j],
        ) by {
            assert(processed_of::<A, F>(states[j], ps[j], ins[j], states[j + 1], outs[j]));
        }
    }
    assert(played_of::<A, F>(back, ps.skip(k), ins.skip(k), outs.skip(k))) by {
        assert forall|j: int| 0 <= j < ps.len() - k implies processed_of::<A, F>(
            back[j],
            #[trigger] ps.skip(k)[j],
            ins.skip(k)[j],
            back[j + 1],
            outs.skip(k)[j],
        ) by {
            assert(processed_of::<A, F>(
                states[k + j],
                ps[k + j],
                ins[k + j],
                states[k + j + 1],
                outs[k + j],
            ));
        }
    }
    lemma_play_keeps_window::<A, F>(states, ps, ins, outs, k);
    assert(back[0] == with_fft_index(states[k], fft_index_of(fft_param)));
    assert(front.last() == states[k]);
    assert(back.last() == r);
    states[k]
}

/// Blocks may be joined: two of them under the same window size, one after the
/// other, give what one block of all their samples gives. So what comes out does
/// not depend on how the host cuts the signal into blocks.
pub proof fn lemma_blocks_may_be_joined<A: Arith, F: Fourier>(
    s: SuppressorState<F>,
    fft_param: int,
    ps: (Seq<ResoVoidParams>, Seq<ResoVoidParams>),
    ins: (Seq<(Single, Single)>, Seq<(Single, Single)>),
    mid: SuppressorState<F>,
    r: SuppressorState<F>,
    outs: (Seq<(Single, Single)>, Seq<(Single, Single)>),
)
    requires
        block_of::<A, F>(s, fft_param, ps.0, ins.0, mid, outs.0),
        block_of::<A, F>(mid, fft_param, ps.1, ins.1, r, outs.1),
    ensures
        block_of::<A, F>(s, fft_param, ps.0 + ps.1, ins.0 + ins.1, r, outs.0 + outs.1),
{
    let front = choose|states: Seq<SuppressorState<F>>|
        {
            &&& #[trigger] played_of::<A, F>(states, ps.0, ins.0, outs.0)
            &&& states[0] == with_fft_index(s, fft_index_of(fft_param))
            &&& states.last() == mid
        };
    let back = choose|states: Seq<SuppressorState<F>>|
        {
            &&& #[trigger] played_of::<A, F>(states, ps.1, ins.1, outs.1)
            &&& states[0] == with_fft_index(mid, fft_index_of(fft_param))
            &&& states.last() == r
        };
    let n = ps.0.len() as int;
    lemma_play_keeps_window::<A, F>(front, ps.0, ins.0, outs.0, n);
    assert(back[0] == mid);
    let states = front + back.drop_first();
    let all = ps.0 + ps.1;
    let input = ins.0 + ins.1;
    let output = outs.0 + outs.1;
    assert(played_of::<A, F>(states, all, input, output)) by {
        assert forall|j: int| 0 <= j < all.len() implies processed_of::<A, F>(
            states[j],
            #[trigger] all[j],
            input[j],
            states[j + 1],
            output[j],
        ) by {
            if j < n {
                assert(processed_of::<A, F>(front[j], ps.0[j], ins.0[j], front[j + 1], outs.0[j]));
            } else {
                let i = j - n;
                assert(processed_of::<A, F>(back[i], ps.1[i], ins.1[i], back[i + 1], outs.1[i]));
                assert(states[j] == back[i]);
                assert(states[j + 1] == back[i + 1]);
            }
        }
    }
    assert(states.last() == r);
}

/// All lists put together, end to end.
pub open spec fn strung<T>(parts: Seq<Seq<T>>) -> Seq<T>
    decreases parts.len(),
{
    if parts.len() == 0 {
        Seq::empty()
    } else {
        strung(parts.drop_last()) + parts.last()
    }
}

/// One block after the other, all under one window size, takes the suppressor from
/// each of `states` to the next.
pub open spec fn blocks_of<A: Arith, F: Fourier>(
    states: Seq<SuppressorState<F>>,
    fft_param: int,
    ps: Seq<Seq<ResoVoidParams>>,
    ins: Seq<Seq<(Single, Single)>>,
    outs: Seq<Seq<(Single, Single)>>,
) -> bool {
    &&& states.len() == ps.len() + 1
    &&& ins.len() == ps.len()
    &&& outs.len() == ps.len()
    &&& forall|k: int|
        0 <= k < ps.len() ==> block_of::<A, F>(
            states[k],
            fft_param,
            #[trigger] ps[k],
            ins[k],
            states[k + 1],
            outs[k],
        )
}

proof fn lemma_blocks_string<A: Arith, F: Fourier>(
    states: Seq<SuppressorState<F>>,
    fft_param: int,
    ps: Seq<Seq<ResoVoidParams>>,
    ins: Seq<Seq<(Single, Single)>>,
    outs: Seq<Seq<(Single, Single)>>,
)
    requires
        blocks_of::<A, F>(states, fft_param, ps, ins, outs),
        ps.len() > 0,
    ensures
        block_of::<A, F>(states[0], fft_param, strung(ps), strung(ins), states.last(), strung(outs)),
    decreases ps.len(),
{
    let n = ps.len() - 1;
    assert(block_of::<A, F>(states[n], fft_param, ps[n], ins[n], states[n + 1], outs[n]));
    if n == 0 {
        assert(ps.drop_last() =~= Seq::empty());
        assert(ins.drop_last() =~= Seq::empty());
        assert(outs.drop_last() =~= Seq::empty());
        assert(strung(ps) =~= ps[0]);
        assert(strung(ins) =~= ins[0]);
        assert(strung(outs) =~= outs[0]);
    } else {
        assert forall|k: int| 0 <= k < n implies block_of::<A, F>(
            states.drop_last()[k],
            fft_param,
            #[trigger] ps.drop_last()[k],
            ins.drop_last()[k],
            states.drop_last()[k + 1],
            outs.drop_last()[k],
        ) by {
            assert(block_of::<A, F>(states[k], fft_param, ps[k], ins[k], states[k + 1], outs[k]));
        }
        lemma_blocks_string::<A, F>(
            states.drop_last(),
            fft_param,
            ps.drop_last(),
            ins.drop_last(),
            outs.drop_last(),
        );
        lemma_blocks_may_be_joined::<A, F>(
            states[0],
            fft_param,
            (strung(ps.drop_last()), ps[n]),
            (strung(ins.drop_last()), ins[n]),
            states[n],
            states[n + 1],
            (strung(outs.drop_last()), outs[n]),
        );
    }
}

proof fn lemma_frame_is_determined<A: Arith, F: Fourier>(
    s: SuppressorState<F>,
    t: SuppressorState<F>,
    p: ResoVoidParams,
    input: (Single, Single),
    s2: SuppressorState<F>,
    t2: SuppressorState<F>,
    out: (Single, Single),
    pair: (Single, Single),
)
    requires
        repeats::<A>(),
        transforms_alike::<F>(),
        s.wf(),
        t.wf(),
        suppressors_alike(s, t),
        processed_of::<A, F>(s, p, input, s2, out),
        processed_of::<A, F>(t, p, input, t2, pair),
    ensures
        same_pair(out, pair),
        suppressors_alike(s2, t2),
{
    let (d, gain, raw) = choose|d: DspParams, gain: Single, raw: (Single, Single)|
        {
            &&& #[trigger] p.drives(d)
            &&& #[trigger] linear_of::<A>(p.output_gain, gain)
            &&& #[trigger] suppressed_of::<A, F>(with_params(s, d), input.0, input.1, s2, raw)
            &&& times_of::<A>(raw.0, gain, out.0)
            &&& times_of::<A>(raw.1, gain, out.1)
        };
    let (e, gain2, raw2) = choose|d: DspParams, gain: Single, raw: (Single, Single)|
        {
            &&& #[trigger] p.drives(d)
            &&& #[trigger] linear_of::<A>(p.output_gain, gain)
            &&& #[trigger] suppressed_of::<A, F>(with_params(t, d), input.0, input.1, t2, raw)
            &&& times_of::<A>(raw.0, gain, pair.0)
            &&& times_of::<A>(raw.1, gain, pair.1)
        };
    lemma_drives_one(p, d, e);
    assert(same(gain, gain2));
    let u = with_params(s, d);
    let v = with_params(t, e);
    assert(u.wf()) by {
        assert forall|c: int, i: int| 0 <= c < 2 && 0 <= i < SIZES implies (#[trigger] u.channels[c][i]).wf(fft_size(i)) by {
            assert(s.channels[c][i].wf(fft_size(i)));
        }
    }
    assert(v.wf()) by {
        assert forall|c: int, i: int| 0 <= c < 2 && 0 <= i < SIZES implies (#[trigger] v.channels[c][i]).wf(fft_size(i)) by {
            assert(t.channels[c][i].wf(fft_size(i)));
        }
    }
    lemma_suppressor_is_determined::<A, F>(u, v, input.0, input.1, s2, t2, raw, raw2);
}

proof fn lemma_play_is_determined<A: Arith, F: Fourier>(
    states: Seq<SuppressorState<F>>,
    others: Seq<SuppressorState<F>>,
    ps: Seq<ResoVoidParams>,
    ins: Seq<(Single, Single)>,
    outs: Seq<(Single, Single)>,
    pairs: Seq<(Single, Single)>,
    k: int,
)
    requires
        repeats::<A>(),
        transforms_alike::<F>(),
        suppressors_alike(states[0], others[0]),
        played_of::<A, F>(states, ps, ins, outs),
        played_of::<A, F>(others, ps, ins, pairs),
        0 <= k <= ps.len(),
    ensures
        suppressors_alike(states[k], others[k]),
        forall|j: int| 0 <= j < k ==> same_pair(#[trigger] outs[j], pairs[j]),
    decreases k,
{
    if k > 0 {
        let j = k - 1;
        lemma_play_is_determined::<A, F>(states, others, ps, ins, outs, pairs, j);
        assert(states[j].wf());
        assert(others[j].wf());
        assert(processed_of::<A, F>(states[j], ps[j], ins[j], states[j + 1], outs[j]));
        assert(processed_of::<A, F>(others[j], ps[j], ins[j], others[j + 1], pairs[j]));
        lemma_frame_is_determined::<A, F>(
            states[j],
            others[j],
            ps[j],
            ins[j],
            states[k],
            others[k],
            outs[j],
            pairs[j],
        );
    }
}

/// The same block, from states that are alike, comes out the same and leaves states
/// that are alike.
pub proof fn lemma_block_is_determined<A: Arith, F: Fourier>(
    s: SuppressorState<F>,
    t: SuppressorState<F>,
    fft_param: int,
    ps: Seq<ResoVoidParams>,
    ins: Seq<(Single, Single)>,
    s2: SuppressorState<F>,
    t2: SuppressorState<F>,
    outs: Seq<(Single, Single)>,
    pairs: Seq<(Single, Single)>,
)
    requires
        repeats::<A>(),
        transforms_alike::<F>(),
        suppressors_alike(s, t),
        block_of::<A, F>(s, fft_param, ps, ins, s2, outs),
        block_of::<A, F>(t, fft_param, ps, ins, t2, pairs),
    ensures
        outs.len() == pairs.len(),
        forall|j: int| 0 <= j < outs.len() ==> same_pair(#[trigger] outs[j], pairs[j]),
        suppressors_alike(s2, t2),
{
    let states = choose|states: Seq<SuppressorState<F>>|
        {
            &&& #[trigger] played_of::<A, F>(states, ps, ins, outs)
            &&& states[0] == with_fft_index(s, fft_index_of(fft_param))
            &&& states.last() == s2
        };
    let others = choose|states: Seq<SuppressorState<F>>|
        {
            &&& #[trigger] played_of::<A, F>(states, ps, ins, pairs)
            &&& states[0] == with_fft_index(t, fft_index_of(fft_param))
            &&& states.last() == t2
        };
    assert(suppressors_alike(states[0], others[0]));
    lemma_play_is_determined::<A, F>(states, others, ps, ins, outs, pairs, ps.len() as int);
}

/// What comes out does not depend on how the host cuts the signal into blocks: two
/// plugins in states that are alike, fed the same samples with the same parameters
/// in blocks of any sizes, give the same samples and end in states that are alike.
pub proof fn lemma_cuts_make_no_difference<A: Arith, F: Fourier>(
    states: Seq<SuppressorState<F>>,
    others: Seq<SuppressorState<F>>,
    fft_param: int,
    ps: (Seq<Seq<ResoVoidParams>>, Seq<Seq<ResoVoidParams>>),
    ins: (Seq<Seq<(Single, Single)>>, Seq<Seq<(Single, Single)>>),
    outs: (Seq<Seq<(Single, Single)>>, Seq<Seq<(Single, Single)>>),
)
    requires
        repeats::<A>(),
        transforms_alike::<F>(),
        suppressors_alike(states[0], others[0]),
        ps.0.len() > 0,
        ps.1.len() > 0,
        blocks_of::<A, F>(states, fft_param, ps.0, ins.0, outs.0),
        blocks_of::<A, F>(others, fft_param, ps.1, ins.1, outs.1),
        strung(ps.0) == strung(ps.1),
        strung(ins.0) == strung(ins.1),
    ensures
        strung(outs.0).len() == strung(outs.1).len(),
        forall|j: int|
            0 <= j < strung(outs.0).len() ==> same_pair(#[trigger] strung(outs.0)[j], strung(outs.1)[j]),
        suppressors_alike(states.last(), others.last()),
{
    lemma_blocks_string::<A, F>(states, fft_param, ps.0, ins.0, outs.0);
    lemma_blocks_string::<A, F>(others, fft_param, ps.1, ins.1, outs.1);
    lemma_block_is_determined::<A, F>(
        states[0],
        others[0],
        fft_param,
        strung(ps.0),
        strung(ins.0),
        states.last(),
        others.last(),
        strung(outs.0),
        strung(outs.1),
    );
}

/// Parameters drive the signal path in just one way.
proof fn lemma_drives_one(p: ResoVoidParams, d: DspParams, e: DspParams)
    requires
        p.drives(d),
        p.drives(e),
    ensures
        d.for_detector() == e.for_detector(),
        d.mix == e.mix,
        d.delta_mode == e.delta_mode,
        d.stereo_linked == e.stereo_linked,
        d.oversampling == e.oversampling,
{
    assert(d.node_depths =~= e.node_depths);
    assert(d.node_freqs =~= e.node_freqs);
    assert(d.node_shapes =~= e.node_shapes);
    assert(d.node_enabled =~= e.node_enabled);
}

} // verus!
