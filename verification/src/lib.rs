//! A guitar rig: effects for a live signal, the streams they run in, and the
//! controls in front of them.
//!
//! Samples and parameters are the bit patterns of single-precision numbers. What
//! is decided about them (comparing, clamping, which sample goes where, when
//! something happens) is proved here down to the bit; the arithmetic itself comes
//! from an implementation of [`arith::Arith`], and contracts say which operation
//! was applied to which numbers. What comes out of it is stated as laws, for every
//! arithmetic whose results are next to the true values, as those of IEEE 754 are.
//!
//! - Foundations: [`bits`], [`arith`], [`number`], [`block`], [`line`], [`param`],
//!   and the processing unit of [`processor`].
//! - Effects: [`gate`], [`comp`], [`drive`], [`cab`], [`nam`], [`delay`],
//!   [`reverb`], [`tuner`], [`metro`].
//! - Streams: [`backend`], [`devices`], [`ring`], [`wasapi`], [`asio`], [`rt`].
//! - Around them: [`wav`] for impulse responses, [`rig`] and [`panel`] for the
//!   controls, [`probe`] for the latency probe.
pub mod arith;
pub mod asio;
pub mod backend;
pub mod bits;
pub mod block;
pub mod cab;
pub mod comp;
pub mod delay;
pub mod devices;
pub mod drive;
pub mod gate;
pub mod line;
pub mod metro;
pub mod nam;
pub mod number;
pub mod panel;
pub mod param;
pub mod probe;
pub mod processor;
pub mod reverb;
pub mod rig;
pub mod ring;
pub mod rt;
pub mod tuner;
pub mod wasapi;
pub mod wav;
