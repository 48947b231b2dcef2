//! Layered RF protocol stack: frames, transport, network and MAC layers.
pub mod error;
pub mod buf;
pub mod events;
pub mod stack;
pub mod transport;
pub mod net;
pub mod mac;
pub mod session;
pub mod fota;
pub mod phy;
pub mod lora;
