pub mod json;
pub mod laws;
pub mod report;
pub mod roundtrip;
pub mod srt;
pub mod text;
pub mod vtt;
pub mod vtt_shape;
pub mod listings;
