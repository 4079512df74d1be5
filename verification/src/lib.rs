//! Per-application audio stream control over two interchangeable
//! command-line audio controllers.
//!
//! The library holds the backend abstraction: a canonical stream model,
//! the capability interface every backend provides, and the two output-text
//! parsers together with the control-command formatting. Spawning the
//! external control programs is injected through the [`audio::Runner`]
//! capability, so the parsing and formatting logic is a pure function of
//! its inputs.

pub mod audio;
pub mod pipewire_cli;
pub mod pulseaudio_cli;
pub mod text;
