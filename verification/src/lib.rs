pub mod bencode;
pub mod catalog;
pub mod http;
pub mod krpc;
pub mod budget;
pub mod dht;
pub mod dht_store;
pub mod mse;
pub mod ownership;
pub mod peer;
pub mod piece;
pub mod proxy;
pub mod rss;
pub mod search;
pub mod sha1;
pub mod sha256;
pub mod storage;
pub mod text;
pub mod torrent;
pub mod xml;
