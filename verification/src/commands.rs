//! What the commands decide, apart from their input and output.

pub mod doctor;
pub mod edit;
pub mod identity;
pub mod init;
pub mod message;
pub mod run;
pub mod sync;
