//! # ks — a key store
//!
//! A local secret manager on top of the [`age`](https://age-encryption.org/)
//! encryption format. A store is a directory that git can synchronise.
//!
//! - The **identity** is an X25519 secret key. It stays on the device, encrypted
//!   with a passphrase.
//! - The **recipients**, `.age-recipients`, are the public keys that may decrypt the
//!   store.
//! - Each **secret** is an age file of its own. Inside is an envelope that binds the
//!   payload to its path and to a generation ([`envelope`]).
//! - The **generation index**, `.ks-generations`, says how new the envelope of each
//!   path has to be ([`generations`]).
//!
//! Encrypting takes the public keys only. Reading, moving and changing the
//! recipients take the identity.
//!
//! ## Layout
//!
//! The operations work on the files of the store directory in memory ([`tree`]) and
//! note the changes that they make; the program around the library makes the same
//! changes on disk. [`store`] has the operations, on top of [`secrets`], [`moves`],
//! [`rotation`], [`health`] and [`listing`]. What holds across operations, also when
//! they are interrupted, is proved in [`laws`], [`move_laws`], [`rotation_laws`] and
//! [`store_laws`].
//!
//! [`git`], [`totp`], [`hardening`], [`clipboard`] and [`commands`] hold what the
//! commands decide and compute, apart from their input and output.

pub mod assoc;
pub mod clipboard;
pub mod commands;
pub mod crypto;
pub mod envelope;
pub mod error;
pub mod fuzzing;
pub mod generations;
pub mod git;
pub mod guard;
pub mod hardening;
pub mod health;
pub mod keyfile;
pub mod laws;
pub mod listing;
pub mod move_laws;
pub mod moves;
pub mod path;
pub mod recipients;
pub mod rotation;
pub mod rotation_laws;
pub mod secret;
pub mod secrets;
pub mod store;
pub mod store_laws;
pub mod text;
pub mod totp;
pub mod tree;

pub use crate::error::Error;
pub use crate::health::{GenerationCensus, RepairReport};
pub use crate::moves::MoveRecovery;
pub use crate::rotation::RotationRecovery;
pub use crate::secret::{Secret, SecretKind};
pub use crate::store::{Config, GrepResults, Store};
