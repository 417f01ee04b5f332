//! Length-prefixed binary framing and a small typed key-value protocol on top of it.

pub mod frame;
pub mod net;
pub mod protocol;
pub mod text;
pub mod wire;

pub use frame::{Decoder, Frame, FrameError, MAX_FRAME_LEN};
pub use net::{NetError, Store};
pub use protocol::{Message, ProtocolError};
