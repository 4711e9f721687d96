//! A feed of execution receipts.
//!
//! A subscription starts at a canonical anchor block and delivers, in execution order and each
//! once, the receipts of the blocks above it: of pending blocks as they are built, and of canonical
//! blocks as far as their receipts are still missing. A canonical block is sealed once all of it
//! was delivered. Whatever cannot be reconciled with what was delivered ends the subscription.
//!
//! - [`ledger`] states the ordering rules, and [`sequence`] runs them. [`conduct`] proves what each
//!   input comes to, [`laws`] and [`client`] what the rules promise over many inputs.
//! - [`recovery`] reads back canonical blocks whose notification was missed.
//! - [`session`] states the course of a whole subscription, and [`subscription`] runs it: it is
//!   told what happened, and says what to do next. [`course`] proves what each signal comes to.
//! - [`convert`], [`wire`], [`params`] and [`identity`] are about what is received from and sent to
//!   clients.

pub mod client;
pub mod conduct;
pub mod convert;
pub mod course;
pub mod identity;
pub mod laws;
pub mod ledger;
pub mod ordered;
pub mod params;
pub mod primitives;
pub mod reason;
pub mod receipt;
pub mod recovery;
pub mod sequence;
pub mod session;
pub mod snapshot;
pub mod subscription;
pub mod wire;
