# virtualfs

The virtual file systems of a two-panel file manager, written in Rust and verified with Verus.
A panel can look into archives and torrent files, browse FTP and WebDAV servers and start at
the drives of the machine. What it lists, reads and counts there is decided in `src/`, and each
function says in its contract what it decides.

- `src/` is the library. `listing` builds one level of a tree out of a flat list of paths, and
  `order` sorts it; `text`, `rpc`, `decimal` and `dates` hold what the file systems share.
  `archive_rpc` (with `tar_archive`, `tar_walk`, `zip_archive` and `archive_entry`),
  `torrent_rpc` (with `torrent_session`, `bencode` and `path_map`), `ftp_rpc` and `webdav_rpc`
  (with `server_listing` and `transfer`) and `drives_root_rpc` are the file systems;
  `file_entry`, `torrent_toolbar` and `page_torrents` are what the windows hold.
- `app/` is the rest: the torrent session, tasks, files on disk, and the traits through which
  servers and windows are plugged in.
- `tests/` runs the library together with the crates that it calls.

Outside crates are called behind small functions whose contracts are believed rather than proved:
`librqbit` reads torrent files and runs torrents, `tar`, `zip`, `flate2` and `bzip2` read archives,
`chrono` reads dates. A doc comment above each of them says what is claimed of the call.
