//! Save-game slot management: which files and directories an operation
//! touches, in what order, and which slot a recency rank names.

pub mod scan;
pub mod transfer;
pub mod slots;
pub mod naming;
pub mod command;
