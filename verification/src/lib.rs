//! Decoding of RTP streams protected by
//! [SMPTE 2022-1](https://en.wikipedia.org/wiki/SMPTE_2022) Forward Error Correction, also known
//! as 'Pro-MPEG Code of Practice #3' or '1D/2D parity FEC' or '2dparityfec'.

pub mod backlog;
pub mod correction;
pub mod decoder;
pub mod decoding;
pub mod delivery;
pub mod effects;
pub mod error;
pub mod fec;
pub mod geometry;
pub mod heap_pool;
pub mod matrix;
pub mod packet;
pub mod packet_sequence;
pub mod parity;
pub mod permit;
pub mod progress;
pub mod recovery;
pub mod repair;
pub mod rtp;
pub mod sequence;
pub mod uniform;
pub mod window;

pub use crate::decoder::Decoder;
pub use crate::error::FecDecodeError;
pub use crate::packet::{BufferPool, Packet, PacketRef, PacketRefMut, PacketStatus, Receiver};
