//! Client for the command/response serial protocol of a gas-control unit.

pub mod decimal;
pub mod frame;
pub mod link;
pub mod gcu;
pub mod table;
pub mod device;
