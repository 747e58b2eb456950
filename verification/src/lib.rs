//! Password protection for a folder: every file is packed into, or hidden
//! behind, an encrypted vault inside the folder, and restored from it again.
//!
//! The library decides; the program around it touches the disk and the screen.
//! An operation on a folder is a [`job::Job`] that names one action at a time
//! and is told what came of it.

pub mod clearing;
pub mod cli;
pub mod crash;
pub mod crypto;
pub mod deeds;
pub mod dialog;
pub mod disk;
pub mod fault;
pub mod front;
pub mod guards;
pub mod icon;
pub mod job;
pub mod laws;
pub mod legacy;
pub mod logic;
pub mod manifest;
pub mod order;
pub mod path;
pub mod progress;
pub mod reading;
pub mod replies;
pub mod restoring;
pub mod session;
pub mod sort;
pub mod storing;
pub mod stream;
pub mod streaming;
pub mod text;
pub mod vault;
pub mod walk;
pub mod whole;
pub mod window;
pub mod wording;
