//! A one-way file downlink over lossy byte streams: the wire codec, the
//! sender's managed files and scheduler, and the receiver's assembly ledger.

pub mod background_runner;
pub mod binary_serialize;
pub mod chunks;
pub mod control;
pub mod decimal;
pub mod downlink_session;
pub mod encoding;
pub mod file_id;
pub mod file_part_id;
pub mod managed_file;
pub mod receiver;
pub mod storage_manager;
pub mod substream;
pub mod transport_packet;
pub mod validity;
pub mod vfs;
