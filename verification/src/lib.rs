//! ResoVoid: a dynamic resonance suppressor for stereo audio.
//!
//! [`dsp`] finds resonances band by band and takes them out, [`params`] and
//! [`plugin`] are what a host sees of it, [`presets`] and [`snapshot`] keep its
//! settings, and [`gui`] decides what its editor shows and does. All of it works on
//! [`single::Single`] numbers; what rounds is asked of an [`arith::Arith`].

pub mod arith;
pub mod csv;
pub mod dsp;
pub mod exact;
pub mod gui;
pub mod numbers;
pub mod params;
pub mod plugin;
pub mod presets;
pub mod single;
pub mod snapshot;
pub mod text;
