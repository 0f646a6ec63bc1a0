//! A verified engine for drawing a closed path with rotating circles.
//!
//! The engine works in fixed-point arithmetic: a real quantity is carried as
//! an `i64` holding `SCALE` steps per unit ("micro-units"), and an angle as
//! micro-radians.  `fourier` computes discrete Fourier coefficients of a
//! sampled path, and `simulator` turns the resulting terms into a chain of
//! rotating circles whose positions are updated once per tick.

pub mod fixed;
pub mod trig;
pub mod fourier;
pub mod simulator;
