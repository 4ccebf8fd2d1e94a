//! The media engine of calls: sealed frames, reordering, in-band control, the
//! screen-share pipeline and the relay that a forwarder runs.

pub mod capture;
pub mod codec;
pub mod control;
pub mod engine;
pub mod fanout;
pub mod frame;
pub mod h264;
pub mod jitter;
pub mod pcm;
pub mod picture;
pub mod relay;
pub mod stream;
pub mod video;
