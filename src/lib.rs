//! A Modbus-TCP register inspector's polling engine: address lists, settings, the
//! segmentation of requested addresses into reads, the resolution of each segment
//! (with bisection of ranges that hold illegal addresses) and the cycle that
//! cascades a lost connection to every address not yet read.

pub mod addr;
pub mod cli;
pub mod laws;
pub mod modbus;
pub mod text;
