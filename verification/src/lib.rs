//! A bidirectional multiplexing protocol: frames, streams and the session state
//! that routes frames between them.
pub mod header;
pub mod frame;
pub mod stream;
pub mod session;

pub use frame::Frame;
pub use header::{Flag, FrameType, MuxHeader, HEADER_LENGTH};
pub use session::{MuxMode, MuxSession};
pub use stream::{ReadPhase, ReadStep, Shared, Stream};
