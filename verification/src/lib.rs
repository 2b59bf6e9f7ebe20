//! Traefik's dynamic configuration from the metadata of a Proxmox VE cluster's
//! guests.
//!
//! Each guest has a subtree of Traefik configuration in its metadata document.
//! The library makes one document of all of them, for Traefik's HTTP provider:
//!
//! * [`render`] makes a guest's subtree its share of the document, by way of
//!   [`substitute`], [`router`] and [`server`]; [`merge`] makes one document of
//!   the shares.
//! * [`guest`] and [`poll`] say what to ask the cluster and what comes of the
//!   replies, [`pve`] how the questions are put and the replies read.
//! * [`address`] chooses between the addresses of a guest, [`config`] brings the
//!   configuration together, [`warnings`] tells which warnings are new.
//! * [`value`] and [`text`] are what all this is made of, [`problem`] what can
//!   be wrong with a subtree.
//! * [`laws`] proves what holds of the whole.
use vstd::prelude::*;

pub mod address;
pub mod config;
pub mod guest;
pub mod laws;
pub mod merge;
pub mod poll;
pub mod problem;
pub mod pve;
pub mod render;
pub mod router;
pub mod server;
pub mod substitute;
pub mod text;
pub mod value;
pub mod warnings;

verus! {

} // verus!
