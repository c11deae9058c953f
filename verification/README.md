# ResoVoid

A dynamic resonance suppressor: it listens to a stereo signal in 64 bands, finds the
bands that stick out of their neighbourhood, and takes them down with a cascade of
peaking filters.

The library under `src/` is written in Verus. Every function states what it returns or
changes, and the proofs are checked with the code.

| Module | What it holds |
| --- | --- |
| `single`, `numbers` | single-precision numbers as bit patterns: order, clamping, rounding to integers |
| `arith` | the operations that round, as a trait; contracts name the operations and their order |
| `dsp::bands` | the layout of the bands |
| `dsp::analysis` | overlapping windows, their spectra, levels and concentrations of the bands |
| `dsp::detector` | medians, references, the knee, the nodes, and the gain of every band |
| `dsp::filters` | the filters, and the ramps between their settings |
| `dsp::delay`, `dsp::suppressor` | delays, both channels, stereo link, fades, reports to the display |
| `dsp::transparency` | what happens to a signal that needs no reduction |
| `dsp::rounding` | what rounding to the nearest number does to sums, products and quotients |
| `dsp::attenuation` | that no band is ever made louder, by an arithmetic that is `tame` |
| `dsp::determinism`, `dsp::agreement` | that the same signal comes out the same, by an arithmetic that `repeats` itself |
| `dsp::comparison` | suppressors side by side: mix, delta, fades, sample rates, channels that are not linked |
| `dsp::resting` | that a reset goes back to the start, whatever rate the filters ran at |
| `dsp::monotony` | that more depth or sharpness never reduces less, and bands ascend, by a `monotone` arithmetic |
| `dsp::shaping` | that the nodes give every band a depth between the least of theirs and 1, and deeper nodes no less |
| `dsp::selectivity` | that more selectivity never reduces less and never leaves more gain, but for rounding |
| `dsp::response` | the gains: no higher where more is asked for, never below 36 dB, exactly 1 without depth |
| `dsp::idling` | that without depth the signal is only delayed |
| `dsp::reporting` | where the figures of a reported frame lie |
| `params`, `snapshot`, `presets` | parameters, what a preset stores of them, where presets are kept |
| `plugin` | what the plugin does when its host calls |
| `csv`, `text` | tables and texts |
| `gui` | axes, curves, nodes, knobs, and the state of the editor |

How numbers are rounded is up to the machine, so the library proves nothing of it. The laws
on the signal hold for every arithmetic that meets the conditions they name (`neutral`,
`tame`, `repeats`, `stands_still`, `differences_go_by_value`, `monotone`, `starts_at_one`,
`gentle_powers`); each condition is written out next to its laws and asks of the single
operations only what floating point of this kind is made to give. A machine may take subnormal
numbers as zero, as the plugin asks it to: where that matters, the conditions leave such
operands out or let them count as zero. They leave open which of the patterns of a NaN comes
out. Of the transform they ask that two plans of one size give the same spectrum of the same
window, and nothing of windows of another size.

`app/` is the plugin around it: the host's interface, painting with egui, files, and the
machine's floating point. `tests/` runs the library on that arithmetic.
