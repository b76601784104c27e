//! A bookmark catalog: links, tags and their associations, the short aliases
//! that name links in public, metadata read from fetched pages, filtered
//! retrieval, an audit trail, and the authorization of requests by bearer
//! token.
//!
//! The catalog lives in memory, as four tables whose rules every operation
//! is proved to keep ([`catalog`]). The stores work on it: [`link_store`],
//! [`tag_store`], [`link_tag`] and [`history`]. What a caller sees of a
//! search is decided in [`search`]; aliases are made in [`short_url`];
//! [`metatag`] reads what a page says of itself; [`claim`] decides who may
//! change the catalog. [`laws`] states what holds across operations.
//!
//! Of the world outside, the library reads the clock and nothing else: a
//! caller fetches pages, keeps the rows and reads the configuration, and
//! hands plain values in.

pub mod catalog;
pub mod claim;
pub mod error;
pub mod general;
pub mod history;
pub mod laws;
pub mod link;
pub mod link_store;
pub mod link_tag;
pub mod metatag;
pub mod order;
pub mod search;
pub mod short_url;
pub mod tag;
pub mod tag_store;
pub mod text;
