//! Core of a GATT server that shares one ATT channel with an existing native
//! GATT client.
//!
//! The crate turns an application-level registry of services, characteristics
//! and descriptors into a flat attribute table, resolves ATT read and write
//! requests against that table, and tracks per-link ATT bearers as LE links
//! come up and go down.
//!
//! The pieces, bottom up:
//!
//! - [`ids`]: the small identifier types (handles, server ids, transport
//!   indices, connection ids, datastore ids).
//! - [`uuid`]: 16-, 32- and 128-bit Bluetooth UUIDs and their wire encoding.
//! - [`att_database`]: attribute metadata, permissions, and the ATT error
//!   codes the core produces.
//! - [`declarations`]: the bit-exact encodings of service and characteristic
//!   declaration values.
//! - [`gatt_database`]: the per-server schema (an ordered attribute table),
//!   service add/remove with atomic collision detection, and the
//!   per-connection view that resolves reads and writes.
//! - [`shared_box`]: the ownership box a schema lives in.
//! - [`services`]: the built-in GATT and GAP services installed on server
//!   open.
//! - [`server`]: the module that owns all open servers and live bearers.
//!
//! Values for dynamic attributes live in application datastores, which may
//! suspend; the core therefore never calls a datastore itself. A read or
//! write on a dynamic attribute resolves to a delegation request naming the
//! datastore, and the surrounding executor performs the call and propagates
//! the datastore's result verbatim.

pub mod att_database;
pub mod declarations;
pub mod gatt_database;
pub mod ids;
pub mod server;
pub mod services;
pub mod shared_box;
pub mod uuid;
