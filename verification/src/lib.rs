//! Planning of batch renames: every file found under a directory tree gets a
//! new name made of its parent directory's name, the sequence number found in
//! its old name, and its old extension.

pub mod anchor;
pub mod executor;
pub mod naming;
pub mod numbering;
pub mod numeral;
pub mod paths;
pub mod plan;
pub mod sequence;
pub mod text;
