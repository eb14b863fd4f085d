//! Verified core of the Omegaflow server: the framing of the binary stream
//! sent to the viewer, the layout of magnetic-model coefficients, the choice
//! of the masses that are streamed, elevation tiles, and the calendar and
//! ephemeris lookups that feed them.

pub mod calendar;
pub mod ephemeris;
pub mod magnetic;
pub mod masses;
pub mod stream;
pub mod tile;
