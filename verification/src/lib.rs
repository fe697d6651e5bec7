pub mod bencode;
pub mod download;
pub mod hashing;
pub mod metainfo;
pub mod peer;
pub mod protocol;
pub mod tracker;
