//! The state of the editor: the frames it has seen, the nodes as they stand, and
//! the handling of presets.

use vstd::prelude::*;
use vstd::string::*;
use crate::arith::{count_of, minus_of, over_of, times_of, Arith};
use crate::csv::DebugEntry;
use crate::dsp::analysis::AnalysisFrame;
use crate::dsp::detector::{all_bands, in_all_bands};
use crate::dsp::suppressor::FFT_SIZES;
use crate::dsp::{BANDS, MAX_NODES};
use crate::gui::axis::{Axis, Pt};
use crate::gui::curve::Nodes;
use crate::gui::nodes::{
    drag_node, dragged_of, freq_order, lower_bound, new_node, node_made_of, ranked, upper_bound, NewNode,
};
use crate::numbers::{HALF, ONE, THOUSAND, ZERO};
use crate::params::{
    fft_index, fft_index_of, NodeShape, ParamKey, ParamValue, ResoVoidParams,
};
use crate::presets::texts;
use crate::single::Single;
use crate::text::{trim, trimmed};

verus! {

/// Level of a band before the first frame, `-120` dB.
pub const NO_LEVEL: u32 = 0xc2f0_0000;

/// Room that the controls below the plot take, `372`.
pub const CONTROLS_HEIGHT: u32 = 0x43ba_0000;
/// Least height of the plot, `240`.
pub const PLOT_HEIGHT: u32 = 0x4370_0000;

/// Entries of the log of frames; what comes later is not logged.
pub const LOG_LIMIT: usize = 5000;

// ----- The way from the signal path -------------------------------------------

/// `rtrb::Consumer`, the end of a ring buffer that is read.
#[verifier::external_type_specification]
#[verifier::external_body]
#[verifier::reject_recursive_types(T)]
pub struct ExConsumer<T>(rtrb::Consumer<T>);

/// The calls of `rtrb::Consumer::pop` made on this end of the ring buffer, in
/// order: what each of them found.
pub uninterp spec fn frames_popped(c: rtrb::Consumer<AnalysisFrame>) -> Seq<Option<AnalysisFrame>>;

/// `rtrb::Consumer::pop`. It hands out the next frame, or nothing because the ring
/// buffer is empty; either way the call is on record. Which frame is next, and
/// whether there is one, depends on the thread that writes, so nothing is said of
/// that.
#[verifier::external_body]
fn pop_frame(c: &mut rtrb::Consumer<AnalysisFrame>) -> (r: Option<AnalysisFrame>)
    ensures
        frames_popped(*final(c)) == frames_popped(*old(c)).push(r),
{
    match c.pop() {
        Ok(f) => Some(f),
        Err(rtrb::PopError::Empty) => None,
    }
}

// ----- The state --------------------------------------------------------------

/// The editor.
pub struct ResoVoidEditor {
    pub latest_spectrum: [Single; BANDS],
    pub latest_reduction: [Single; BANDS],
    pub centers: [Single; BANDS],
    pub sample_rate: Single,
    /// Depth and frequency of every node as it stands on the screen.
    pub node_positions: [(Single, Single); MAX_NODES],
    pub dark_mode: bool,
    pub preset_names: Vec<String>,
    pub selected_preset: String,
    pub show_save_dialog: bool,
    pub save_name: String,
    pub show_overwrite_confirm: bool,
    /// The folder of the presets has changed and must be read again.
    pub rescan: bool,
    pub debug_log: Vec<DebugEntry>,
    /// Number of the next frame.
    pub debug_hop: u32,
}

/// What the display knows of the signal path.
#[verifier::ext_equal]
pub struct DisplayState {
    pub spectrum: Seq<Single>,
    pub reduction: Seq<Single>,
    pub centers: Seq<Single>,
    pub sample_rate: Single,
    pub log: Seq<DebugEntry>,
    pub hop: u32,
}

/// The display after it has seen one more frame.
pub open spec fn seen(d: DisplayState, f: AnalysisFrame) -> DisplayState {
    DisplayState {
        spectrum: f.spectrum@,
        reduction: f.reduction@,
        centers: f.centers@,
        sample_rate: f.sample_rate,
        log: if d.log.len() < LOG_LIMIT {
            d.log.push(
                DebugEntry {
                    hop: d.hop,
                    centers: f.centers,
                    levels: f.spectrum,
                    concentration: f.concentration,
                    gains: f.reduction,
                },
            )
        } else {
            d.log
        },
        hop: if d.hop == u32::MAX {
            0
        } else {
            (d.hop + 1) as u32
        },
    }
}

/// The display after it has seen these frames.
pub open spec fn all_seen(d: DisplayState, frames: Seq<AnalysisFrame>) -> DisplayState
    decreases frames.len(),
{
    if frames.len() == 0 {
        d
    } else {
        seen(all_seen(d, frames.drop_last()), frames.last())
    }
}

/// These frames as looks into the ring buffer find them.
pub open spec fn finds(frames: Seq<AnalysisFrame>) -> Seq<Option<AnalysisFrame>> {
    Seq::new(frames.len(), |i: int| Some(frames[i]))
}

/// Looking into the ring buffer went on until it was empty, and `frames` came out.
/// It would also end after more frames than can be counted.
pub open spec fn emptied(
    before: Seq<Option<AnalysisFrame>>,
    frames: Seq<AnalysisFrame>,
    after: Seq<Option<AnalysisFrame>>,
) -> bool {
    ||| after == before + finds(frames) + seq![None]
    ||| after == before + finds(frames) && frames.len() == usize::MAX
}

/// What a press of a button in the save dialog asks for.
#[derive(Clone, Copy, PartialEq, Eq, Structural, Debug)]
pub enum SaveAsk {
    /// The preset is to be written.
    Write,
    /// There is one of that name; the user has to confirm first.
    Confirm,
}

impl ResoVoidEditor {
    /// What the display knows of the signal path.
    pub open spec fn display(&self) -> DisplayState {
        DisplayState {
            spectrum: self.latest_spectrum@,
            reduction: self.latest_reduction@,
            centers: self.centers@,
            sample_rate: self.sample_rate,
            log: self.debug_log@,
            hop: self.debug_hop,
        }
    }

    /// Everything but what the display knows is the same.
    pub open spec fn same_dialogs(&self, other: &Self) -> bool {
        &&& self.node_positions == other.node_positions
        &&& self.dark_mode == other.dark_mode
        &&& self.preset_names == other.preset_names
        &&& self.selected_preset == other.selected_preset
        &&& self.show_save_dialog == other.show_save_dialog
        &&& self.save_name == other.save_name
        &&& self.show_overwrite_confirm == other.show_overwrite_confirm
        &&& self.rescan == other.rescan
    }

    /// An editor that has seen no frame. Nodes stand at half depth.
    pub fn new(sample_rate: Single, node_freqs: &[Single; MAX_NODES]) -> (e: Self)
        ensures
            e.display() == (DisplayState {
                spectrum: all_bands(Single(NO_LEVEL)),
                reduction: all_bands(Single(ONE)),
                centers: all_bands(Single(ZERO)),
                sample_rate,
                log: seq![],
                hop: 0,
            }),
            forall|j: int|
                0 <= j < MAX_NODES ==> #[trigger] e.node_positions@[j] == (
                    Single(HALF),
                    node_freqs@[j],
                ),
            !e.dark_mode,
            e.preset_names@.len() == 0,
            e.selected_preset@.len() == 0,
            !e.show_save_dialog,
            e.save_name@.len() == 0,
            !e.show_overwrite_confirm,
            e.rescan,
    {
        let mut node_positions: [(Single, Single); MAX_NODES] = [(Single(HALF), Single(ZERO)); MAX_NODES];
        for j in 0..MAX_NODES
            invariant
                forall|m: int|
                    0 <= m < j ==> #[trigger] node_positions@[m] == (Single(HALF), node_freqs@[m]),
        {
            node_positions[j] = (Single(HALF), node_freqs[j]);
        }
        proof {
            reveal_strlit("");
        }
        let e = ResoVoidEditor {
            latest_spectrum: in_all_bands(Single(NO_LEVEL)),
            latest_reduction: in_all_bands(Single(ONE)),
            centers: in_all_bands(Single(ZERO)),
            sample_rate,
            node_positions,
            dark_mode: false,
            preset_names: Vec::new(),
            selected_preset: String::new(),
            show_save_dialog: false,
            save_name: String::new(),
            show_overwrite_confirm: false,
            rescan: true,
            debug_log: Vec::new(),
            debug_hop: 0,
        };
        assert(e.debug_log@ =~= seq![]);
        e
    }

    /// Takes in one frame.
    pub fn absorb(&mut self, f: &AnalysisFrame)
        ensures
            final(self).display() == seen(old(self).display(), *f),
            final(self).same_dialogs(&*old(self)),
    {
        self.latest_spectrum = f.spectrum;
        self.latest_reduction = f.reduction;
        self.centers = f.centers;
        self.sample_rate = f.sample_rate;
        if self.debug_log.len() < LOG_LIMIT {
            self.debug_log.push(
                DebugEntry {
                    hop: self.debug_hop,
                    centers: f.centers,
                    levels: f.spectrum,
                    concentration: f.concentration,
                    gains: f.reduction,
                },
            );
        }
        self.debug_hop = if self.debug_hop == u32::MAX {
            0
        } else {
            self.debug_hop + 1
        };
    }

    /// Takes in all frames that wait in the ring buffer.
    pub fn drain(&mut self, viz_consumer: &mut rtrb::Consumer<AnalysisFrame>)
        ensures
            exists|frames: Seq<AnalysisFrame>|
                {
                    &&& #[trigger] emptied(
                        frames_popped(*old(viz_consumer)),
                        frames,
                        frames_popped(*final(viz_consumer)),
                    )
                    &&& final(self).display() == all_seen(old(self).display(), frames)
                },
            final(self).same_dialogs(&*old(self)),
    {
        let ghost mut frames: Seq<AnalysisFrame> = seq![];
        let ghost first = frames_popped(*viz_consumer);
        assert(first =~= first + finds(frames));
        for i in 0..usize::MAX
            invariant
                frames.len() == i,
                frames_popped(*viz_consumer) == first + finds(frames),
                first == frames_popped(*old(viz_consumer)),
                self.display() == all_seen(old(self).display(), frames),
                self.same_dialogs(&*old(self)),
        {
            match pop_frame(viz_consumer) {
                Some(f) => {
                    self.absorb(&f);
                    proof {
                        let more = frames.push(f);
                        assert(more.drop_last() =~= frames);
                        assert(first + finds(more) =~= (first + finds(frames)).push(Some(f)));
                        frames = more;
                    }
                },
                None => {
                    assert(frames_popped(*viz_consumer) =~= first + finds(frames) + seq![None]);
                    assert(emptied(first, frames, frames_popped(*viz_consumer)));
                    return;
                },
            }
        }
        assert(emptied(first, frames, frames_popped(*viz_consumer)));
    }

    /// Empties the log of frames.
    pub fn clear_log(&mut self)
        ensures
            final(self).display() == (DisplayState { log: seq![], hop: 0, ..old(self).display() }),
            final(self).same_dialogs(&*old(self)),
    {
        self.debug_log = Vec::new();
        self.debug_hop = 0;
        assert(self.debug_log@ =~= seq![]);
    }

    /// Takes over the names of the presets. With none selected, the first one is.
    pub fn presets_scanned(&mut self, names: Vec<String>)
        ensures
            final(self).preset_names == names,
            final(self).selected_preset@ == if old(self).selected_preset@.len() == 0 && names@.len()
                > 0 {
                names@[0]@
            } else {
                old(self).selected_preset@
            },
            !final(self).rescan,
            final(self).display() == old(self).display(),
            final(self).node_positions == old(self).node_positions,
            final(self).dark_mode == old(self).dark_mode,
            final(self).show_save_dialog == old(self).show_save_dialog,
            final(self).save_name == old(self).save_name,
            final(self).show_overwrite_confirm == old(self).show_overwrite_confirm,
    {
        if self.selected_preset.as_str().unicode_len() == 0 && names.len() > 0 {
            self.selected_preset = names[0].clone();
        }
        self.preset_names = names;
        self.rescan = false;
    }

    /// The preset to load or delete, if one is selected.
    pub fn chosen_preset(&self) -> (r: Option<String>)
        ensures
            self.selected_preset@.len() == 0 ==> r is None,
            self.selected_preset@.len() > 0 ==> r is Some && r->0@ == self.selected_preset@,
    {
        if self.selected_preset.as_str().unicode_len() == 0 {
            None
        } else {
            Some(self.selected_preset.clone())
        }
    }

    /// The user wants to save: the dialog opens with the selected name.
    pub fn save_clicked(&mut self)
        ensures
            final(self).save_name@ == old(self).selected_preset@,
            final(self).show_save_dialog,
            final(self).display() == old(self).display(),
            final(self).node_positions == old(self).node_positions,
            final(self).dark_mode == old(self).dark_mode,
            final(self).preset_names == old(self).preset_names,
            final(self).selected_preset == old(self).selected_preset,
            final(self).show_overwrite_confirm == old(self).show_overwrite_confirm,
            final(self).rescan == old(self).rescan,
    {
        self.save_name = self.selected_preset.clone();
        self.show_save_dialog = true;
    }

    /// A preset has been deleted, or could not be.
    pub fn preset_deleted(&mut self, done: bool)
        ensures
            done ==> final(self).selected_preset@.len() == 0 && final(self).rescan,
            !done ==> final(self).selected_preset == old(self).selected_preset
                && final(self).rescan == old(self).rescan,
            final(self).display() == old(self).display(),
            final(self).node_positions == old(self).node_positions,
            final(self).dark_mode == old(self).dark_mode,
            final(self).preset_names == old(self).preset_names,
            final(self).show_save_dialog == old(self).show_save_dialog,
            final(self).save_name == old(self).save_name,
            final(self).show_overwrite_confirm == old(self).show_overwrite_confirm,
    {
        if done {
            proof {
                reveal_strlit("");
            }
            self.selected_preset = String::new();
            self.rescan = true;
        }
    }

    /// The name that the dialog holds is taken: a preset is listed under it.
    pub open spec fn name_is_taken(&self) -> bool {
        &&& trimmed(self.save_name@).len() > 0
        &&& texts(self.preset_names@).contains(trimmed(self.save_name@))
    }

    /// The user confirms the name. One that is taken asks for a second
    /// confirmation, and nothing is written yet.
    pub fn save_confirmed(&mut self) -> (ask: SaveAsk)
        ensures
            ask == if old(self).name_is_taken() {
                SaveAsk::Confirm
            } else {
                SaveAsk::Write
            },
            final(self).show_overwrite_confirm == (old(self).show_overwrite_confirm
                || old(self).name_is_taken()),
            final(self).display() == old(self).display(),
            final(self).node_positions == old(self).node_positions,
            final(self).dark_mode == old(self).dark_mode,
            final(self).preset_names == old(self).preset_names,
            final(self).selected_preset == old(self).selected_preset,
            final(self).show_save_dialog == old(self).show_save_dialog,
            final(self).save_name == old(self).save_name,
            final(self).rescan == old(self).rescan,
    {
        let name = trim(self.save_name.as_str());
        let mut taken = false;
        if name.as_str().unicode_len() > 0 {
            let n: usize = self.preset_names.len();
            let mut k: usize = 0;
            while k < n && !taken
                invariant
                    n == self.preset_names@.len(),
                    k <= n,
                    name@ == trimmed(self.save_name@),
                    taken ==> texts(self.preset_names@).contains(name@),
                    !taken ==> forall|m: int|
                        0 <= m < k ==> (#[trigger] texts(self.preset_names@)[m]) != name@,
                decreases n - k,
            {
                assert(texts(self.preset_names@)[k as int] == self.preset_names@[k as int]@);
                if self.preset_names[k] == name {
                    taken = true;
                }
                k = k + 1;
            }
        }
        if taken {
            self.show_overwrite_confirm = true;
            SaveAsk::Confirm
        } else {
            SaveAsk::Write
        }
    }

    /// The preset has been written, or could not be; the dialog closes. Where it
    /// was `over` another one, so does the second confirmation.
    pub fn preset_written(&mut self, done: bool, over: bool)
        ensures
            done ==> final(self).selected_preset@ == old(self).save_name@ && final(self).rescan,
            !done ==> final(self).selected_preset == old(self).selected_preset
                && final(self).rescan == old(self).rescan,
            !final(self).show_save_dialog,
            final(self).show_overwrite_confirm == (old(self).show_overwrite_confirm && !over),
            final(self).display() == old(self).display(),
            final(self).node_positions == old(self).node_positions,
            final(self).dark_mode == old(self).dark_mode,
            final(self).preset_names == old(self).preset_names,
            final(self).save_name == old(self).save_name,
    {
        if done {
            self.selected_preset = self.save_name.clone();
            self.rescan = true;
        }
        self.show_save_dialog = false;
        if over {
            self.show_overwrite_confirm = false;
        }
    }

    /// The nodes as they stand: where the screen has them, with the shapes and
    /// switches of the parameters.
    pub open spec fn shows_nodes(&self, p: &ResoVoidParams, n: Nodes) -> bool {
        &&& forall|j: int|
            0 <= j < MAX_NODES ==> (#[trigger] n.depths@[j], n.freqs@[j]) == self.node_positions@[j]
        &&& n.shapes@ == p.node_shapes@.map_values(|s: NodeShape| s.index())
        &&& n.enabled == p.node_enabled
    }

    /// The nodes as they stand.
    pub fn nodes(&self, p: &ResoVoidParams) -> (n: Nodes)
        ensures
            self.shows_nodes(p, n),
    {
        let mut n = Nodes {
            depths: [Single(ZERO); MAX_NODES],
            freqs: [Single(ZERO); MAX_NODES],
            shapes: [0; MAX_NODES],
            enabled: p.node_enabled,
        };
        for j in 0..MAX_NODES
            invariant
                n.enabled == p.node_enabled,
                forall|m: int|
                    0 <= m < j ==> (#[trigger] n.depths@[m], n.freqs@[m]) == self.node_positions@[m],
                forall|m: int| 0 <= m < j ==> #[trigger] n.shapes@[m] == p.node_shapes@[m].index(),
        {
            let (depth, freq) = self.node_positions[j];
            n.depths[j] = depth;
            n.freqs[j] = freq;
            n.shapes[j] = p.node_shapes[j].to_dsp_index();
        }
        assert(n.shapes@ =~= p.node_shapes@.map_values(|s: NodeShape| s.index()));
        n
    }

    /// Only the place of node `i` has changed, to `to`.
    pub open spec fn moved(&self, before: &Self, i: int, to: (Single, Single)) -> bool {
        &&& self.node_positions@ == before.node_positions@.update(i, to)
        &&& self.display() == before.display()
        &&& self.dark_mode == before.dark_mode
        &&& self.preset_names == before.preset_names
        &&& self.selected_preset == before.selected_preset
        &&& self.show_save_dialog == before.show_save_dialog
        &&& self.save_name == before.save_name
        &&& self.show_overwrite_confirm == before.show_overwrite_confirm
        &&& self.rescan == before.rescan
    }

    /// A drag of node `i` by `(dx, dy)`, and what it changes in the parameters.
    pub fn drag<A: Arith>(
        &mut self,
        ax: &Axis,
        p: &ResoVoidParams,
        i: usize,
        dx: Single,
        dy: Single,
    ) -> (changes: Vec<(ParamKey, ParamValue)>)
        requires
            i < MAX_NODES,
        ensures
            exists|n: Nodes, to: (Single, Single)|
                {
                    let order = ranked(n.enabled@, n.freqs@, MAX_NODES as int);
                    &&& #[trigger] old(self).shows_nodes(p, n)
                    &&& dragged_of::<A>(
                        *ax,
                        n.depths@[i as int],
                        n.freqs@[i as int],
                        lower_bound(order, n.freqs@, i),
                        upper_bound(order, n.freqs@, i, ax.f_max),
                        dx,
                        dy,
                        to,
                    )
                    &&& #[trigger] final(self).moved(&*old(self), i as int, to)
                    &&& changes@ == seq![
                        (ParamKey::NodeDepth(i), ParamValue::Number(to.0)),
                        (ParamKey::NodeFreq(i), ParamValue::Number(to.1)),
                    ]
                },
    {
        let n = self.nodes(p);
        let order = freq_order(&n.enabled, &n.freqs);
        let to = drag_node::<A>(ax, &n, &order, i, dx, dy);
        self.node_positions[i] = to;
        let mut changes: Vec<(ParamKey, ParamValue)> = Vec::new();
        changes.push((ParamKey::NodeDepth(i), ParamValue::Number(to.0)));
        changes.push((ParamKey::NodeFreq(i), ParamValue::Number(to.1)));
        proof {
            assert(old(self).shows_nodes(p, n));
            assert(self.moved(&*old(self), i as int, to));
            assert(changes@ =~= seq![
                (ParamKey::NodeDepth(i), ParamValue::Number(to.0)),
                (ParamKey::NodeFreq(i), ParamValue::Number(to.1)),
            ]);
        }
        changes
    }

    /// A double click on the plot, and what it changes in the parameters: a bell at
    /// half depth is made where there is room for one.
    pub fn double_click<A: Arith>(&mut self, ax: &Axis, p: &ResoVoidParams, click: Pt) -> (changes: Vec<
        (ParamKey, ParamValue),
    >)
        ensures
            exists|n: Nodes, made: Option<NewNode>|
                {
                    &&& #[trigger] old(self).shows_nodes(p, n)
                    &&& #[trigger] node_made_of::<A>(*ax, n, click, made)
                    &&& made is None ==> *final(self) == *old(self) && changes@.len() == 0
                    &&& made matches Some(m) ==> {
                        &&& final(self).moved(&*old(self), m.slot as int, (m.depth, m.freq))
                        &&& changes@ == seq![
                            (ParamKey::NodeDepth(m.slot), ParamValue::Number(m.depth)),
                            (ParamKey::NodeFreq(m.slot), ParamValue::Number(m.freq)),
                            (ParamKey::NodeEnabled(m.slot), ParamValue::Flag(true)),
                            (ParamKey::NodeShape(m.slot), ParamValue::Shape(NodeShape::Bell)),
                        ]
                    }
                },
    {
        let n = self.nodes(p);
        let made = new_node::<A>(ax, &n, click);
        let mut changes: Vec<(ParamKey, ParamValue)> = Vec::new();
        assert(old(self).shows_nodes(p, n));
        if let Some(m) = made {
            self.node_positions[m.slot] = (m.depth, m.freq);
            changes.push((ParamKey::NodeDepth(m.slot), ParamValue::Number(m.depth)));
            changes.push((ParamKey::NodeFreq(m.slot), ParamValue::Number(m.freq)));
            changes.push((ParamKey::NodeEnabled(m.slot), ParamValue::Flag(true)));
            changes.push((ParamKey::NodeShape(m.slot), ParamValue::Shape(NodeShape::Bell)));
            assert(self.moved(&*old(self), m.slot as int, (m.depth, m.freq)));
            assert(changes@ =~= seq![
                (ParamKey::NodeDepth(m.slot), ParamValue::Number(m.depth)),
                (ParamKey::NodeFreq(m.slot), ParamValue::Number(m.freq)),
                (ParamKey::NodeEnabled(m.slot), ParamValue::Flag(true)),
                (ParamKey::NodeShape(m.slot), ParamValue::Shape(NodeShape::Bell)),
            ]);
        }
        changes
    }
}

/// Without the log being full, it holds one entry per frame.
pub proof fn lemma_log_grows(d: DisplayState, frames: Seq<AnalysisFrame>)
    requires
        d.log.len() + frames.len() <= LOG_LIMIT,
    ensures
        all_seen(d, frames).log.len() == d.log.len() + frames.len(),
    decreases frames.len(),
{
    if frames.len() > 0 {
        lemma_log_grows(d, frames.drop_last());
    }
}

/// The log never outgrows its limit.
pub proof fn lemma_log_is_bounded(d: DisplayState, frames: Seq<AnalysisFrame>)
    requires
        d.log.len() <= LOG_LIMIT,
    ensures
        all_seen(d, frames).log.len() <= LOG_LIMIT,
    decreases frames.len(),
{
    if frames.len() > 0 {
        lemma_log_is_bounded(d, frames.drop_last());
    }
}

// ----- Figures ----------------------------------------------------------------

/// `ms` is the latency of the chosen window size in ms.
pub open spec fn latency_ms_of<A: Arith>(fft_param: int, rate: Single, ms: Single) -> bool {
    exists|n: Single, secs: Single|
        {
            &&& #[trigger] count_of::<A>(FFT_SIZES@[fft_index_of(fft_param)], n)
            &&& #[trigger] over_of::<A>(n, rate, secs)
            &&& times_of::<A>(secs, Single(THOUSAND), ms)
        }
}

/// The latency of the chosen window size in ms.
pub fn latency_ms<A: Arith>(fft_param: i32, sample_rate: Single) -> (ms: Single)
    ensures
        latency_ms_of::<A>(fft_param as int, sample_rate, ms),
{
    let n = A::of_count(FFT_SIZES[fft_index(fft_param)]);
    A::times(A::over(n, sample_rate), Single(THOUSAND))
}

/// `h` is how high the plot is, given the room there is: the controls keep theirs,
/// and the plot never goes below its least height.
pub open spec fn plot_height_of<A: Arith>(room: Single, h: Single) -> bool {
    exists|rest: Single| #[trigger]
        minus_of::<A>(room, Single(CONTROLS_HEIGHT), rest) && h == rest.larger(Single(PLOT_HEIGHT))
}

/// How high the plot is, given the room there is.
pub fn plot_height<A: Arith>(room: Single) -> (h: Single)
    ensures
        plot_height_of::<A>(room, h),
{
    A::minus(room, Single(CONTROLS_HEIGHT)).max(Single(PLOT_HEIGHT))
}

/// `khz` is the upper end of the plot in whole kHz.
pub open spec fn top_khz_of<A: Arith>(f_max: Single, khz: nat) -> bool {
    exists|x: Single| #[trigger]
        over_of::<A>(f_max, Single(THOUSAND), x) && khz == x.index_near()
}

/// The upper end of the plot in whole kHz.
pub fn top_khz<A: Arith>(f_max: Single) -> (khz: usize)
    ensures
        top_khz_of::<A>(f_max, khz as nat),
{
    A::over(f_max, Single(THOUSAND)).nearest_index()
}

/// Where the log of frames is written: with the presets.
pub fn debug_csv_path(presets_dir: &Vec<String>) -> (path: Vec<String>)
    ensures
        texts(path@) == texts(presets_dir@).push("resovoid_concentration.csv"@),
{
    let mut path: Vec<String> = Vec::new();
    let n: usize = presets_dir.len();
    for i in 0..n
        invariant
            n == presets_dir@.len(),
            path@.len() == i,
            forall|m: int| 0 <= m < i ==> (#[trigger] path@[m])@ == presets_dir@[m]@,
    {
        path.push(presets_dir[i].clone());
    }
    path.push("resovoid_concentration.csv".to_owned());
    assert(texts(path@) =~= texts(presets_dir@).push("resovoid_concentration.csv"@));
    path
}

} // verus!
