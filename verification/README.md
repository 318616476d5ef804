# dht_rs

A crawler for the BitTorrent distributed hash table. It joins the table, collects the
hashes of torrents, downloads their metadata from peers and keeps it in a database, with a
small web interface to control it and to search.

The protocols and the rules are a verified library; the sockets, the database and the web
interface are ordinary Rust around it.

## Layout

- `src/` is the library, written in Verus:
  - `bencode`: values, their encoding and decoding
  - `kad`: identifiers, addresses, distances, compact forms and a routing table
  - `krpc`: the messages of the table, and the queries that wait for a reply
  - `dht`: the routing table, searches and the session of a node
  - `bt`: the peer wire protocol, stream encryption, torrents and trackers
  - `crawler`: what is sampled, looked up and downloaded
  - `storage`, `tags`: what is kept of a torrent, and how it is found again
  - `tools`, `utp`: requests of the web interface, and the state of uTP sockets
- `tests/` runs the library.
- `app/` is the program: it needs libutp, the files of the web interface in `./static`, and
  the tables of the database in `./sql/init.sql`.

## What is implemented

BEP-3 (the basic protocol, with extensions), BEP-5 (DHT), BEP-9 (metadata, fetching only),
BEP-29 (uTP) and BEP-51 (`sample_infohashes`), over IPv4 or IPv6.
