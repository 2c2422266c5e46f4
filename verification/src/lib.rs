//! quspec: the verified core of a lightweight audio spectrogram viewer.
//!
//! - `natural`: the natural order of file names, with its laws.
//! - `sorting`: stable sorting of names in that order.
//! - `utils`: which files make the playlist, and time labels.
//! - `spectrogram`: the layout of the spectrogram image and its progressive
//!   delivery in chunks of columns.
//! - `audio`: the decisions taken while decoding, and the samples shown.
//! - `app`: the viewer's state: track shown, tracks kept decoded, window
//!   size, channel.
//! - `rulers`: the ticks of the frequency and decibel rulers.

pub mod app;
pub mod audio;
pub mod natural;
pub mod rulers;
pub mod sorting;
pub mod spectrogram;
pub mod utils;
