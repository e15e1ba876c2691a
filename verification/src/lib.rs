//! A clipboard for filesystem paths.
//!
//! One directory in the user's data directory serves as a one-slot staging
//! area. Files and directories are staged there by copying or moving them,
//! and pasted from there into the working directory.
//!
//! This library decides which filesystem actions an operation consists of
//! and how their outcomes add up; the caller performs the actions. A
//! [`store::Cxp`] knows where the staging directory is and begins the
//! operations. Each operation is a [`session::Session`]: it names an
//! [`action::Action`], takes the [`action::Event`] that answers it, and names
//! the next, until it has a verdict.
//!
//! What the actions of a session amount to is stated over a model of the
//! filesystem, [`world::World`], and proved in [`laws`]: that staging leaves
//! in the staging directory the sources and nothing else, that cutting
//! differs from copying only in what becomes of the sources, that emptying
//! leaves nothing, and that pasting leaves what is staged as it is.

pub mod action;
pub mod batch;
pub mod laws;
pub mod path;
pub mod session;
pub mod store;
pub mod world;
