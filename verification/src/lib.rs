//! A library for the bencode wire format and the torrent metadata schema
//! built on it: a strict canonical decoder, a canonical encoder, and a
//! validating mapper from decoded values to a typed descriptor.

pub mod bencode;
pub mod meta;
