//! Triggers CasparCG media playback from an incoming LTC audio signal.
//!
//! Linear timecode is decoded from audio ([`timecode_parser`]), and its positions are mapped to
//! the media cues of a configuration ([`config`], [`cue`], [`media_item`]). A controller
//! ([`media_controller`]) decides what the layers of the server should play, and the commands for
//! it are worded and exchanged by the rules of AMCP ([`amcp`]). [`tui`] holds what a terminal
//! shows of all this.
//!
//! The library performs no input or output: it takes what was received, and says what is to be
//! sent. Frame rates, audio samples and cue times are floating-point numbers, whose arithmetic
//! ([`float`]) is carried out on their encodings.

pub mod amcp;
pub mod audio;
pub mod config;
pub mod cue;
pub mod decimal;
pub mod float;
pub mod float_text;
pub mod layer;
pub mod ltc;
pub mod media_controller;
pub mod media_item;
pub mod media_loader;
pub mod natural;
pub mod rounding;
pub mod scaling;
pub mod schedule;
pub mod signal;
pub mod text;
pub mod timecode_parser;
pub mod tui;
