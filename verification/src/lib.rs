//! Verified core of an audio-plugin framework.
pub mod block;
pub mod bus;
pub mod diag;
pub mod engine;
pub mod handle;
pub mod hostmidi;
pub mod hosttext;
pub mod instance;
pub mod ipc;
pub mod lww;
pub mod messages;
pub mod midi;
pub mod mirror;
pub mod notice;
pub mod params;
pub mod ports;
pub mod processor;
pub mod protocol;
pub mod render;
pub mod ring;
pub mod scratch;
pub mod standalone;
pub mod stateio;
pub mod text;
pub mod tick;
pub mod wire;
