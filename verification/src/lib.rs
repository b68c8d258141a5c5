//! Virtual file systems of a two-panel file manager: what the panels list, read
//! and count for archives, torrents, remote servers and drives.

pub mod archive_entry;
pub mod archive_laws;
pub mod archive_rpc;
pub mod bencode;
pub mod dates;
pub mod decimal;
pub mod drives_root_rpc;
pub mod file_entry;
pub mod ftp_rpc;
pub mod laws;
pub mod listing;
pub mod order;
pub mod page_torrents;
pub mod panel_laws;
pub mod path_map;
pub mod reading_laws;
pub mod rpc;
pub mod server_listing;
pub mod tar_archive;
pub mod tar_walk;
pub mod text;
pub mod torrent_laws;
pub mod torrent_rpc;
pub mod torrent_session;
pub mod torrent_toolbar;
pub mod transfer;
pub mod webdav_rpc;
pub mod zip_archive;
