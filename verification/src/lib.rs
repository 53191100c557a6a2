//! The decisions behind an audio-reactive face camera.

pub mod app;
pub mod audio;
pub mod color;
pub mod fft;
pub mod fonts;
pub mod heartbeat;
pub mod keys;
pub mod listing;
pub mod mesh;
pub mod nowplaying;
pub mod queue;
pub mod random;
pub mod screenshot;
pub mod text;
