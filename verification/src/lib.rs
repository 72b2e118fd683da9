//! A small personal secrets store: an in-memory mapping from string
//! identifiers to string secrets, persisted to a single encrypted file
//! protected by a user-supplied password.
//!
//! The [`store`] module holds the record store and its canonical flat-text
//! codec; [`container`] holds key derivation and the authenticated
//! encryption of the encoded store into a self-describing byte container;
//! [`commands`] decides what a command line means for the surrounding
//! command layer; [`order`], [`codec`] and [`model`] carry the lexicographic
//! order, the encoding and the map model they all rest on.

pub mod codec;
pub mod commands;
pub mod container;
pub mod model;
pub mod order;
pub mod store;
