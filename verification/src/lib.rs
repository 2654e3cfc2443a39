//! Application index and ranking engine of a desktop launcher.
//!
//! The crate keeps the store of known applications ([`store`]), reconciles
//! it with fresh scans of the shortcut directories, ranks the records
//! against a query by fuzzy match and usage history ([`rank`]), turns the
//! store into bytes and back ([`codec`]), and follows one session of the
//! launcher window event by event ([`session`]). Every function is verified
//! against its contract; the two calls that leave the verified code are the
//! fuzzy matcher in [`rank`] and the UTF-8 check in [`codec`].

pub mod codec;
pub mod color;
pub mod rank;
pub mod record;
pub mod session;
pub mod store;
pub mod store_laws;
