//! Crash-consistency testing for software that writes to a single file.
//!
//! A [`journal::Journal`] holds an initial image and the ordered list of
//! writes and flushes made to it. Replaying a subset of that list gives the
//! image that a crash would have left behind.
//!
//! - [`journal`]: the journal, filters, replay.
//! - [`codec`]: the stored form of a change list.
//! - [`fs`]: the recording filesystem, request by request.
//! - [`mutate`]: rewriting a change list to model harsher storage.
//! - [`testgen`]: filters for the crash points between two syncs.
//! - [`bisect`]: which filter to verify next.
//! - [`command`]: the command lines of a test script, and mount options.
//! - [`show`]: a change list as text.
//! - [`errors`], [`text`]: errors, and numbers and bits as text.

pub mod bisect;
pub mod codec;
pub mod command;
pub mod errors;
pub mod fs;
pub mod journal;
pub mod mutate;
pub mod show;
pub mod testgen;
pub mod text;
