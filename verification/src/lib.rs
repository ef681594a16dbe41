//! Data plane of an information-centric network node: named packets, sparse
//! distributed representations, the per-link Bayes classifier, the packet
//! codecs and the endpoint's request disciplines.

pub mod bayes;
pub mod broker;
pub mod cache;
pub mod congestion;
pub mod error;
pub mod faces;
pub mod hbfi;
pub mod identity;
pub mod link;
pub mod links;
pub mod narrow_waist;
pub mod octets;
pub mod packets;
pub mod protocol;
pub mod sdr;
pub mod txrx;
