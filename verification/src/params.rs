//! The parameters that a host sees: their names, ranges and values, and the
//! flat form in which presets keep them.

use vstd::prelude::*;
use vstd::string::*;
use crate::dsp::detector::{
    default_node_depths, default_node_enabled, default_node_freqs, default_node_shapes, fresh_node_depths,
    fresh_node_enabled, fresh_node_freqs,
};
use crate::dsp::suppressor::{DspParams, FFT_SIZES};
use crate::dsp::MAX_NODES;
use crate::numbers::{
    FIFTY, FIVE, FIVE_HUNDRED, HALF, HUNDRED, MINUS_TWELVE, ONE, TEN, TENTH, THIRTY_THREE_HUNDREDTHS,
    THREE_TENTHS, TWELVE, TWENTY, TWENTY_THOUSAND, ZERO,
};
use crate::single::Single;
use crate::text::{decimal, digit, digit_char, push_decimal};

verus! {

// ----- Choices ----------------------------------------------------------------

/// The shape of a node's influence.
#[derive(Clone, Copy, PartialEq, Eq, Structural, Debug)]
pub enum NodeShape {
    Bell,
    LowShelf,
    HighShelf,
}

impl NodeShape {
    /// The number of the shape in the signal path.
    pub open spec fn index(self) -> usize {
        match self {
            NodeShape::Bell => 0,
            NodeShape::LowShelf => 1,
            NodeShape::HighShelf => 2,
        }
    }

    /// The number of the shape in the signal path.
    pub fn to_dsp_index(self) -> (r: usize)
        ensures
            r == self.index(),
    {
        match self {
            NodeShape::Bell => 0,
            NodeShape::LowShelf => 1,
            NodeShape::HighShelf => 2,
        }
    }
}

/// How the two channels share their gains.
#[derive(Clone, Copy, PartialEq, Eq, Structural, Debug)]
pub enum StereoLink {
    Linked,
    Independent,
}

// ----- Parameters -------------------------------------------------------------

/// The values of all parameters.
#[derive(Clone, Copy)]
pub struct ResoVoidParams {
    pub depth: Single,
    pub sharpness: Single,
    pub selectivity: Single,
    /// In ms.
    pub attack: Single,
    /// In ms.
    pub release: Single,
    pub mix: Single,
    /// In dB.
    pub output_gain: Single,
    /// Which of the window sizes.
    pub fft_size: i32,
    pub soft_mode: bool,
    pub delta: bool,
    pub node_depths: [Single; MAX_NODES],
    /// In Hz.
    pub node_freqs: [Single; MAX_NODES],
    /// A node that is deleted is off; its slot stays.
    pub node_enabled: [bool; MAX_NODES],
    pub node_shapes: [NodeShape; MAX_NODES],
    pub stereo_link: StereoLink,
    pub oversampling: bool,
}

/// All parameters as values to reason about.
#[verifier::ext_equal]
pub struct ParamState {
    pub depth: Single,
    pub sharpness: Single,
    pub selectivity: Single,
    pub attack: Single,
    pub release: Single,
    pub mix: Single,
    pub output_gain: Single,
    pub fft_size: i32,
    pub soft_mode: bool,
    pub delta: bool,
    pub node_depths: Seq<Single>,
    pub node_freqs: Seq<Single>,
    pub node_enabled: Seq<bool>,
    pub node_shapes: Seq<NodeShape>,
    pub stereo_link: StereoLink,
    pub oversampling: bool,
}

impl View for ResoVoidParams {
    type V = ParamState;

    open spec fn view(&self) -> ParamState {
        ParamState {
            depth: self.depth,
            sharpness: self.sharpness,
            selectivity: self.selectivity,
            attack: self.attack,
            release: self.release,
            mix: self.mix,
            output_gain: self.output_gain,
            fft_size: self.fft_size,
            soft_mode: self.soft_mode,
            delta: self.delta,
            node_depths: self.node_depths@,
            node_freqs: self.node_freqs@,
            node_enabled: self.node_enabled@,
            node_shapes: self.node_shapes@,
            stereo_link: self.stereo_link,
            oversampling: self.oversampling,
        }
    }
}

/// The shapes of the nodes as they come: a shelf at either end, bells between.
pub open spec fn default_shapes() -> Seq<NodeShape> {
    Seq::new(
        MAX_NODES as nat,
        |j: int|
            if j == 0 {
                NodeShape::LowShelf
            } else if j == 5 {
                NodeShape::HighShelf
            } else {
                NodeShape::Bell
            },
    )
}

/// The parameters as they come.
pub open spec fn default_params() -> ParamState {
    ParamState {
        depth: Single(HALF),
        sharpness: Single(HALF),
        selectivity: Single(HALF),
        attack: Single(TEN),
        release: Single(HUNDRED),
        mix: Single(ONE),
        output_gain: Single(ZERO),
        fft_size: 1,
        soft_mode: false,
        delta: false,
        node_depths: default_node_depths(),
        node_freqs: default_node_freqs(),
        node_enabled: default_node_enabled(),
        node_shapes: default_shapes(),
        stereo_link: StereoLink::Linked,
        oversampling: false,
    }
}

impl Default for ResoVoidParams {
    fn default() -> (r: Self)
        ensures
            r@ == default_params(),
    {
        let r = ResoVoidParams {
            depth: Single(HALF),
            sharpness: Single(HALF),
            selectivity: Single(HALF),
            attack: Single(TEN),
            release: Single(HUNDRED),
            mix: Single(ONE),
            output_gain: Single(ZERO),
            fft_size: 1,
            soft_mode: false,
            delta: false,
            node_depths: fresh_node_depths(),
            node_freqs: fresh_node_freqs(),
            node_enabled: fresh_node_enabled(),
            node_shapes: [
                NodeShape::LowShelf,
                NodeShape::Bell,
                NodeShape::Bell,
                NodeShape::Bell,
                NodeShape::Bell,
                NodeShape::HighShelf,
                NodeShape::Bell,
                NodeShape::Bell,
            ],
            stereo_link: StereoLink::Linked,
            oversampling: false,
        };
        assert(r@ =~= default_params());
        r
    }
}

/// The window size that a value of the parameter chooses.
pub open spec fn fft_index_of(v: int) -> int {
    if v < 0 {
        0
    } else if v > 3 {
        3
    } else {
        v
    }
}

/// The window size that a value of the parameter chooses.
pub fn fft_index(v: i32) -> (r: usize)
    ensures
        r == fft_index_of(v as int),
{
    if v < 0 {
        0
    } else if v > 3 {
        3
    } else {
        v as usize
    }
}

/// How a value of the window size parameter is written: as the size, or as it is
/// where there is none.
pub open spec fn fft_label_of(v: int) -> Seq<char> {
    if 0 <= v <= 3 {
        decimal(FFT_SIZES@[v] as nat)
    } else if v < 0 {
        seq!['-'] + decimal((-v) as nat)
    } else {
        decimal(v as nat)
    }
}

/// How a value of the window size parameter is written.
pub fn fft_label(v: i32) -> (s: String)
    ensures
        s@ == fft_label_of(v as int),
{
    let mut s = String::new();
    proof {
        reveal_strlit("");
        assert(s@ =~= seq![]);
    }
    if 0 <= v && v <= 3 {
        push_decimal(&mut s, FFT_SIZES[v as usize] as u64);
    } else if v < 0 {
        s.push('-');
        push_decimal(&mut s, (-(v as i64)) as u64);
    } else {
        push_decimal(&mut s, v as u64);
    }
    assert(s@ =~= fft_label_of(v as int));
    s
}

impl ResoVoidParams {
    /// What the signal path is told for these values.
    pub open spec fn drives(&self, d: DspParams) -> bool {
        &&& d.depth == self.depth
        &&& d.sharpness == self.sharpness
        &&& d.selectivity == self.selectivity
        &&& d.attack_ms == self.attack
        &&& d.release_ms == self.release
        &&& d.mix == self.mix
        &&& d.soft_mode == self.soft_mode
        &&& d.delta_mode == self.delta
        &&& d.node_depths == self.node_depths
        &&& d.node_freqs == self.node_freqs
        &&& d.node_enabled == self.node_enabled
        &&& d.node_shapes@ == self.node_shapes@.map_values(|s: NodeShape| s.index())
        &&& d.stereo_linked == (self.stereo_link == StereoLink::Linked)
        &&& d.oversampling == self.oversampling
    }

    /// What the signal path is told for these values.
    pub fn dsp_params(&self) -> (d: DspParams)
        ensures
            self.drives(d),
    {
        let mut node_shapes: [usize; MAX_NODES] = [0; MAX_NODES];
        for j in 0..MAX_NODES
            invariant
                forall|m: int| 0 <= m < j ==> node_shapes@[m] == #[trigger] self.node_shapes@[m].index(),
        {
            node_shapes[j] = self.node_shapes[j].to_dsp_index();
        }
        let d = DspParams {
            depth: self.depth,
            sharpness: self.sharpness,
            selectivity: self.selectivity,
            attack_ms: self.attack,
            release_ms: self.release,
            mix: self.mix,
            soft_mode: self.soft_mode,
            delta_mode: self.delta,
            node_depths: self.node_depths,
            node_freqs: self.node_freqs,
            node_shapes,
            node_enabled: self.node_enabled,
            stereo_linked: self.stereo_link == StereoLink::Linked,
            oversampling: self.oversampling,
        };
        assert(d.node_shapes@ =~= self.node_shapes@.map_values(|s: NodeShape| s.index()));
        d
    }
}

/// Parameters as they come drive the signal path as it comes.
pub proof fn lemma_defaults_agree(p: ResoVoidParams, d: DspParams)
    requires
        p@ == default_params(),
        p.drives(d),
    ensures
        d.is_default(),
{
    assert(p.node_shapes@.map_values(|s: NodeShape| s.index()) =~= default_node_shapes());
}

// ----- Keys -------------------------------------------------------------------

/// Number of parameters.
pub const PARAM_COUNT: usize = 44;

/// One parameter.
#[derive(Clone, Copy, PartialEq, Eq, Structural, Debug)]
pub enum ParamKey {
    Depth,
    Sharpness,
    Selectivity,
    Attack,
    Release,
    Mix,
    Output,
    NodeDepth(usize),
    NodeFreq(usize),
    FftSize,
    SoftMode,
    Delta,
    Oversampling,
    NodeEnabled(usize),
    NodeShape(usize),
    StereoLink,
}

/// A value of a parameter.
#[derive(Clone, Copy, PartialEq, Eq, Structural, Debug)]
pub enum ParamValue {
    Number(Single),
    Integer(i32),
    Flag(bool),
    Shape(NodeShape),
    Link(StereoLink),
}

/// Parameter number `k`, in the order in which presets list them.
pub open spec fn key_of(k: int) -> ParamKey {
    if k < 7 {
        seq![
            ParamKey::Depth,
            ParamKey::Sharpness,
            ParamKey::Selectivity,
            ParamKey::Attack,
            ParamKey::Release,
            ParamKey::Mix,
            ParamKey::Output,
        ][k]
    } else if k < 15 {
        ParamKey::NodeDepth((k - 7) as usize)
    } else if k < 23 {
        ParamKey::NodeFreq((k - 15) as usize)
    } else if k == 23 {
        ParamKey::FftSize
    } else if k == 24 {
        ParamKey::SoftMode
    } else if k == 25 {
        ParamKey::Delta
    } else if k == 26 {
        ParamKey::Oversampling
    } else if k < 35 {
        ParamKey::NodeEnabled((k - 27) as usize)
    } else if k < 43 {
        ParamKey::NodeShape((k - 35) as usize)
    } else {
        ParamKey::StereoLink
    }
}

/// Parameter number `k`.
pub fn param_key(k: usize) -> (key: ParamKey)
    requires
        k < PARAM_COUNT,
    ensures
        key == key_of(k as int),
        key.valid(),
{
    match k {
        0 => ParamKey::Depth,
        1 => ParamKey::Sharpness,
        2 => ParamKey::Selectivity,
        3 => ParamKey::Attack,
        4 => ParamKey::Release,
        5 => ParamKey::Mix,
        6 => ParamKey::Output,
        23 => ParamKey::FftSize,
        24 => ParamKey::SoftMode,
        25 => ParamKey::Delta,
        26 => ParamKey::Oversampling,
        43 => ParamKey::StereoLink,
        _ => if k < 15 {
            ParamKey::NodeDepth(k - 7)
        } else if k < 23 {
            ParamKey::NodeFreq(k - 15)
        } else if k < 35 {
            ParamKey::NodeEnabled(k - 27)
        } else {
            ParamKey::NodeShape(k - 35)
        },
    }
}

impl ParamKey {
    /// The slot it belongs to exists.
    pub open spec fn valid(self) -> bool {
        match self {
            ParamKey::NodeDepth(j) => j < MAX_NODES,
            ParamKey::NodeFreq(j) => j < MAX_NODES,
            ParamKey::NodeEnabled(j) => j < MAX_NODES,
            ParamKey::NodeShape(j) => j < MAX_NODES,
            _ => true,
        }
    }

    /// The text that stands for the parameter, without the slot's number.
    pub open spec fn stem(self) -> Seq<char> {
        match self {
            ParamKey::Depth => "depth"@,
            ParamKey::Sharpness => "sharp"@,
            ParamKey::Selectivity => "sel"@,
            ParamKey::Attack => "atk"@,
            ParamKey::Release => "rel"@,
            ParamKey::Mix => "mix"@,
            ParamKey::Output => "out"@,
            ParamKey::NodeDepth(_) => "node"@,
            ParamKey::NodeFreq(_) => "nf"@,
            ParamKey::FftSize => "fft"@,
            ParamKey::SoftMode => "mode"@,
            ParamKey::Delta => "delt"@,
            ParamKey::Oversampling => "os2x"@,
            ParamKey::NodeEnabled(_) => "nen"@,
            ParamKey::NodeShape(_) => "nsh"@,
            ParamKey::StereoLink => "slnk"@,
        }
    }

    /// The slot it belongs to.
    pub open spec fn slot(self) -> Option<usize> {
        match self {
            ParamKey::NodeDepth(j) => Some(j),
            ParamKey::NodeFreq(j) => Some(j),
            ParamKey::NodeEnabled(j) => Some(j),
            ParamKey::NodeShape(j) => Some(j),
            _ => None,
        }
    }

    /// The text that stands for the parameter, in hosts and presets.
    pub open spec fn id_text(self) -> Seq<char> {
        match self.slot() {
            Some(j) => self.stem().push(digit(j as nat)),
            None => self.stem(),
        }
    }

    /// The text that stands for the parameter, in hosts and presets.
    pub fn id(self) -> (s: String)
        requires
            self.valid(),
        ensures
            s@ == self.id_text(),
    {
        let (stem, slot): (&str, Option<usize>) = match self {
            ParamKey::Depth => ("depth", None),
            ParamKey::Sharpness => ("sharp", None),
            ParamKey::Selectivity => ("sel", None),
            ParamKey::Attack => ("atk", None),
            ParamKey::Release => ("rel", None),
            ParamKey::Mix => ("mix", None),
            ParamKey::Output => ("out", None),
            ParamKey::NodeDepth(j) => ("node", Some(j)),
            ParamKey::NodeFreq(j) => ("nf", Some(j)),
            ParamKey::FftSize => ("fft", None),
            ParamKey::SoftMode => ("mode", None),
            ParamKey::Delta => ("delt", None),
            ParamKey::Oversampling => ("os2x", None),
            ParamKey::NodeEnabled(j) => ("nen", Some(j)),
            ParamKey::NodeShape(j) => ("nsh", Some(j)),
            ParamKey::StereoLink => ("slnk", None),
        };
        let mut s = stem.to_owned();
        if let Some(j) = slot {
            s.push(digit_char(j as u64));
        }
        s
    }

    /// The name that the user reads, without the slot's number.
    pub open spec fn title(self) -> Seq<char> {
        match self {
            ParamKey::Depth => "Depth"@,
            ParamKey::Sharpness => "Sharpness"@,
            ParamKey::Selectivity => "Selectivity"@,
            ParamKey::Attack => "Attack"@,
            ParamKey::Release => "Release"@,
            ParamKey::Mix => "Mix"@,
            ParamKey::Output => "Output"@,
            ParamKey::NodeDepth(_) => "Node Depth "@,
            ParamKey::NodeFreq(_) => "Node Freq "@,
            ParamKey::FftSize => "FFT Size"@,
            ParamKey::SoftMode => "Mode"@,
            ParamKey::Delta => "Delta"@,
            ParamKey::Oversampling => "Oversampling"@,
            ParamKey::NodeEnabled(_) => "Node Enable "@,
            ParamKey::NodeShape(_) => "Node Shape "@,
            ParamKey::StereoLink => "Stereo Link"@,
        }
    }

    /// The name that the user reads; slots are counted from 1.
    pub open spec fn name_text(self) -> Seq<char> {
        match self.slot() {
            Some(j) => self.title().push(digit((j + 1) as nat)),
            None => self.title(),
        }
    }

    /// The name that the user reads.
    pub fn name(self) -> (s: String)
        requires
            self.valid(),
        ensures
            s@ == self.name_text(),
    {
        let (title, slot): (&str, Option<usize>) = match self {
            ParamKey::Depth => ("Depth", None),
            ParamKey::Sharpness => ("Sharpness", None),
            ParamKey::Selectivity => ("Selectivity", None),
            ParamKey::Attack => ("Attack", None),
            ParamKey::Release => ("Release", None),
            ParamKey::Mix => ("Mix", None),
            ParamKey::Output => ("Output", None),
            ParamKey::NodeDepth(j) => ("Node Depth ", Some(j)),
            ParamKey::NodeFreq(j) => ("Node Freq ", Some(j)),
            ParamKey::FftSize => ("FFT Size", None),
            ParamKey::SoftMode => ("Mode", None),
            ParamKey::Delta => ("Delta", None),
            ParamKey::Oversampling => ("Oversampling", None),
            ParamKey::NodeEnabled(j) => ("Node Enable ", Some(j)),
            ParamKey::NodeShape(j) => ("Node Shape ", Some(j)),
            ParamKey::StereoLink => ("Stereo Link", None),
        };
        let mut s = title.to_owned();
        if let Some(j) = slot {
            s.push(digit_char((j + 1) as u64));
        }
        s
    }
}

// ----- Setup ------------------------------------------------------------------

/// The values that a number may take, and how a control spreads them.
#[derive(Clone, Copy, PartialEq, Eq, Structural, Debug)]
pub enum NumberRange {
    Linear { min: Single, max: Single },
    Skewed { min: Single, max: Single, factor: Single },
}

/// What a number is counted in.
#[derive(Clone, Copy, PartialEq, Eq, Structural, Debug)]
pub enum Unit {
    Plain,
    Milliseconds,
    Percent,
    Decibels,
    Hertz,
}

/// How a number glides to a new value, and for how many ms.
#[derive(Clone, Copy, PartialEq, Eq, Structural, Debug)]
pub enum Smoothing {
    Exponential(Single),
    Linear(Single),
}

/// What there is to know about a number besides its value.
#[derive(Clone, Copy, PartialEq, Eq, Structural, Debug)]
pub struct NumberSetup {
    pub default: Single,
    pub range: NumberRange,
    pub unit: Unit,
    pub smoothing: Smoothing,
}

impl NumberRange {
    /// Both ends of the range.
    pub fn bounds(self) -> (r: (Single, Single))
        ensures
            self matches NumberRange::Linear { min, max } ==> r == (min, max),
            self matches NumberRange::Skewed { min, max, factor } ==> r == (min, max),
    {
        match self {
            NumberRange::Linear { min, max } => (min, max),
            NumberRange::Skewed { min, max, factor: _ } => (min, max),
        }
    }
}

/// How a parameter that is an integer is offered to the host.
#[derive(Clone, Copy, PartialEq, Eq, Structural, Debug)]
pub struct IntegerSetup {
    pub default: i32,
    pub min: i32,
    pub max: i32,
}

/// The setup of the window size: every value in its range chooses a window of its
/// own, and beyond the range only those at its ends are chosen.
pub fn fft_setup() -> (r: IntegerSetup)
    ensures
        r == (IntegerSetup { default: 1, min: 0, max: 3 }),
        get(default_params(), ParamKey::FftSize) == ParamValue::Integer(r.default),
        forall|v: int| r.min <= v <= r.max ==> #[trigger] fft_index_of(v) == v,
        forall|v: int| r.min <= #[trigger] fft_index_of(v) <= r.max,
{
    IntegerSetup { default: 1, min: 0, max: 3 }
}

impl Unit {
    /// What is written behind the number.
    pub open spec fn suffix_text(self) -> Seq<char> {
        match self {
            Unit::Plain => ""@,
            Unit::Milliseconds => " ms"@,
            Unit::Percent => "%"@,
            Unit::Decibels => " dB"@,
            Unit::Hertz => " Hz"@,
        }
    }

    /// What is written behind the number.
    pub fn suffix(self) -> (s: &'static str)
        ensures
            s@ == self.suffix_text(),
    {
        match self {
            Unit::Plain => "",
            Unit::Milliseconds => " ms",
            Unit::Percent => "%",
            Unit::Decibels => " dB",
            Unit::Hertz => " Hz",
        }
    }
}

/// From 0 to 1.
pub open spec fn whole_range() -> NumberRange {
    NumberRange::Linear { min: Single(ZERO), max: Single(ONE) }
}

/// The setup of a parameter that is a number.
pub open spec fn setup_of(key: ParamKey) -> NumberSetup {
    let default = get(default_params(), key)->Number_0;
    match key {
        ParamKey::Attack => NumberSetup {
            default,
            range: NumberRange::Skewed {
                min: Single(TENTH),
                max: Single(FIFTY),
                factor: Single(THIRTY_THREE_HUNDREDTHS),
            },
            unit: Unit::Milliseconds,
            smoothing: Smoothing::Exponential(Single(FIVE)),
        },
        ParamKey::Release => NumberSetup {
            default,
            range: NumberRange::Skewed {
                min: Single(TEN),
                max: Single(FIVE_HUNDRED),
                factor: Single(THIRTY_THREE_HUNDREDTHS),
            },
            unit: Unit::Milliseconds,
            smoothing: Smoothing::Exponential(Single(FIVE)),
        },
        ParamKey::Mix => NumberSetup {
            default,
            range: whole_range(),
            unit: Unit::Percent,
            smoothing: Smoothing::Linear(Single(TWENTY)),
        },
        ParamKey::Output => NumberSetup {
            default,
            range: NumberRange::Linear { min: Single(MINUS_TWELVE), max: Single(TWELVE) },
            unit: Unit::Decibels,
            smoothing: Smoothing::Exponential(Single(FIVE)),
        },
        ParamKey::NodeDepth(_) => NumberSetup {
            default,
            range: whole_range(),
            unit: Unit::Plain,
            smoothing: Smoothing::Linear(Single(FIVE)),
        },
        ParamKey::NodeFreq(_) => NumberSetup {
            default,
            range: NumberRange::Skewed {
                min: Single(TWENTY),
                max: Single(TWENTY_THOUSAND),
                factor: Single(THREE_TENTHS),
            },
            unit: Unit::Hertz,
            smoothing: Smoothing::Linear(Single(FIVE)),
        },
        _ => NumberSetup {
            default,
            range: whole_range(),
            unit: Unit::Plain,
            smoothing: Smoothing::Exponential(Single(FIVE)),
        },
    }
}

impl ParamKey {
    /// The parameter is a number.
    pub open spec fn is_number(self) -> bool {
        match self {
            ParamKey::Depth => true,
            ParamKey::Sharpness => true,
            ParamKey::Selectivity => true,
            ParamKey::Attack => true,
            ParamKey::Release => true,
            ParamKey::Mix => true,
            ParamKey::Output => true,
            ParamKey::NodeDepth(_) => true,
            ParamKey::NodeFreq(_) => true,
            _ => false,
        }
    }

    /// The setup of a parameter that is a number.
    pub fn setup(self) -> (r: NumberSetup)
        requires
            self.valid(),
            self.is_number(),
        ensures
            r == setup_of(self),
    {
        let from_zero_to_one = NumberRange::Linear { min: Single(ZERO), max: Single(ONE) };
        let glide = Smoothing::Exponential(Single(FIVE));
        match self {
            ParamKey::Attack => NumberSetup {
                default: Single(TEN),
                range: NumberRange::Skewed {
                    min: Single(TENTH),
                    max: Single(FIFTY),
                    factor: Single(THIRTY_THREE_HUNDREDTHS),
                },
                unit: Unit::Milliseconds,
                smoothing: glide,
            },
            ParamKey::Release => NumberSetup {
                default: Single(HUNDRED),
                range: NumberRange::Skewed {
                    min: Single(TEN),
                    max: Single(FIVE_HUNDRED),
                    factor: Single(THIRTY_THREE_HUNDREDTHS),
                },
                unit: Unit::Milliseconds,
                smoothing: glide,
            },
            ParamKey::Mix => NumberSetup {
                default: Single(ONE),
                range: from_zero_to_one,
                unit: Unit::Percent,
                smoothing: Smoothing::Linear(Single(TWENTY)),
            },
            ParamKey::Output => NumberSetup {
                default: Single(ZERO),
                range: NumberRange::Linear { min: Single(MINUS_TWELVE), max: Single(TWELVE) },
                unit: Unit::Decibels,
                smoothing: glide,
            },
            ParamKey::NodeDepth(j) => NumberSetup {
                default: fresh_node_depths()[j],
                range: from_zero_to_one,
                unit: Unit::Plain,
                smoothing: Smoothing::Linear(Single(FIVE)),
            },
            ParamKey::NodeFreq(j) => NumberSetup {
                default: fresh_node_freqs()[j],
                range: NumberRange::Skewed {
                    min: Single(TWENTY),
                    max: Single(TWENTY_THOUSAND),
                    factor: Single(THREE_TENTHS),
                },
                unit: Unit::Hertz,
                smoothing: Smoothing::Linear(Single(FIVE)),
            },
            _ => NumberSetup {
                default: Single(HALF),
                range: from_zero_to_one,
                unit: Unit::Plain,
                smoothing: glide,
            },
        }
    }
}

// ----- Reading and changing ---------------------------------------------------

/// The value of one parameter.
pub open spec fn get(p: ParamState, key: ParamKey) -> ParamValue {
    match key {
        ParamKey::Depth => ParamValue::Number(p.depth),
        ParamKey::Sharpness => ParamValue::Number(p.sharpness),
        ParamKey::Selectivity => ParamValue::Number(p.selectivity),
        ParamKey::Attack => ParamValue::Number(p.attack),
        ParamKey::Release => ParamValue::Number(p.release),
        ParamKey::Mix => ParamValue::Number(p.mix),
        ParamKey::Output => ParamValue::Number(p.output_gain),
        ParamKey::NodeDepth(j) => ParamValue::Number(p.node_depths[j as int]),
        ParamKey::NodeFreq(j) => ParamValue::Number(p.node_freqs[j as int]),
        ParamKey::FftSize => ParamValue::Integer(p.fft_size),
        ParamKey::SoftMode => ParamValue::Flag(p.soft_mode),
        ParamKey::Delta => ParamValue::Flag(p.delta),
        ParamKey::Oversampling => ParamValue::Flag(p.oversampling),
        ParamKey::NodeEnabled(j) => ParamValue::Flag(p.node_enabled[j as int]),
        ParamKey::NodeShape(j) => ParamValue::Shape(p.node_shapes[j as int]),
        ParamKey::StereoLink => ParamValue::Link(p.stereo_link),
    }
}

/// The parameters after one of them has changed. A value of the wrong sort
/// changes nothing.
pub open spec fn with(p: ParamState, key: ParamKey, v: ParamValue) -> ParamState {
    match (key, v) {
        (ParamKey::Depth, ParamValue::Number(x)) => ParamState { depth: x, ..p },
        (ParamKey::Sharpness, ParamValue::Number(x)) => ParamState { sharpness: x, ..p },
        (ParamKey::Selectivity, ParamValue::Number(x)) => ParamState { selectivity: x, ..p },
        (ParamKey::Attack, ParamValue::Number(x)) => ParamState { attack: x, ..p },
        (ParamKey::Release, ParamValue::Number(x)) => ParamState { release: x, ..p },
        (ParamKey::Mix, ParamValue::Number(x)) => ParamState { mix: x, ..p },
        (ParamKey::Output, ParamValue::Number(x)) => ParamState { output_gain: x, ..p },
        (ParamKey::NodeDepth(j), ParamValue::Number(x)) => ParamState {
            node_depths: p.node_depths.update(j as int, x),
            ..p
        },
        (ParamKey::NodeFreq(j), ParamValue::Number(x)) => ParamState {
            node_freqs: p.node_freqs.update(j as int, x),
            ..p
        },
        (ParamKey::FftSize, ParamValue::Integer(x)) => ParamState { fft_size: x, ..p },
        (ParamKey::SoftMode, ParamValue::Flag(x)) => ParamState { soft_mode: x, ..p },
        (ParamKey::Delta, ParamValue::Flag(x)) => ParamState { delta: x, ..p },
        (ParamKey::Oversampling, ParamValue::Flag(x)) => ParamState { oversampling: x, ..p },
        (ParamKey::NodeEnabled(j), ParamValue::Flag(x)) => ParamState {
            node_enabled: p.node_enabled.update(j as int, x),
            ..p
        },
        (ParamKey::NodeShape(j), ParamValue::Shape(x)) => ParamState {
            node_shapes: p.node_shapes.update(j as int, x),
            ..p
        },
        (ParamKey::StereoLink, ParamValue::Link(x)) => ParamState { stereo_link: x, ..p },
        _ => p,
    }
}

impl ResoVoidParams {
    /// The value of one parameter.
    pub fn value(&self, key: ParamKey) -> (v: ParamValue)
        requires
            key.valid(),
        ensures
            v == get(self@, key),
    {
        match key {
            ParamKey::Depth => ParamValue::Number(self.depth),
            ParamKey::Sharpness => ParamValue::Number(self.sharpness),
            ParamKey::Selectivity => ParamValue::Number(self.selectivity),
            ParamKey::Attack => ParamValue::Number(self.attack),
            ParamKey::Release => ParamValue::Number(self.release),
            ParamKey::Mix => ParamValue::Number(self.mix),
            ParamKey::Output => ParamValue::Number(self.output_gain),
            ParamKey::NodeDepth(j) => ParamValue::Number(self.node_depths[j]),
            ParamKey::NodeFreq(j) => ParamValue::Number(self.node_freqs[j]),
            ParamKey::FftSize => ParamValue::Integer(self.fft_size),
            ParamKey::SoftMode => ParamValue::Flag(self.soft_mode),
            ParamKey::Delta => ParamValue::Flag(self.delta),
            ParamKey::Oversampling => ParamValue::Flag(self.oversampling),
            ParamKey::NodeEnabled(j) => ParamValue::Flag(self.node_enabled[j]),
            ParamKey::NodeShape(j) => ParamValue::Shape(self.node_shapes[j]),
            ParamKey::StereoLink => ParamValue::Link(self.stereo_link),
        }
    }

    /// Changes one parameter. A value of the wrong sort changes nothing.
    pub fn change(&mut self, key: ParamKey, v: ParamValue)
        requires
            key.valid(),
        ensures
            final(self)@ == with(old(self)@, key, v),
    {
        match (key, v) {
            (ParamKey::Depth, ParamValue::Number(x)) => { self.depth = x; },
            (ParamKey::Sharpness, ParamValue::Number(x)) => { self.sharpness = x; },
            (ParamKey::Selectivity, ParamValue::Number(x)) => { self.selectivity = x; },
            (ParamKey::Attack, ParamValue::Number(x)) => { self.attack = x; },
            (ParamKey::Release, ParamValue::Number(x)) => { self.release = x; },
            (ParamKey::Mix, ParamValue::Number(x)) => { self.mix = x; },
            (ParamKey::Output, ParamValue::Number(x)) => { self.output_gain = x; },
            (ParamKey::NodeDepth(j), ParamValue::Number(x)) => { self.node_depths[j] = x; },
            (ParamKey::NodeFreq(j), ParamValue::Number(x)) => { self.node_freqs[j] = x; },
            (ParamKey::FftSize, ParamValue::Integer(x)) => { self.fft_size = x; },
            (ParamKey::SoftMode, ParamValue::Flag(x)) => { self.soft_mode = x; },
            (ParamKey::Delta, ParamValue::Flag(x)) => { self.delta = x; },
            (ParamKey::Oversampling, ParamValue::Flag(x)) => { self.oversampling = x; },
            (ParamKey::NodeEnabled(j), ParamValue::Flag(x)) => { self.node_enabled[j] = x; },
            (ParamKey::NodeShape(j), ParamValue::Shape(x)) => { self.node_shapes[j] = x; },
            (ParamKey::StereoLink, ParamValue::Link(x)) => { self.stereo_link = x; },
            _ => {},
        }
        assert(self@ =~= with(old(self)@, key, v));
    }
}

} // verus!
