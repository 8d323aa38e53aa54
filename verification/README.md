# eggine

The archive format (cartons) and the network protocol of the eggine game engine, written in Verus with their byte
formats stated as specifications and the code proved against them.

## Layout

- `src/carton/` — the carton archive: little-endian and variable length integers (`stream/`), the string table, the
  file table, file descriptions and zstd compression settings, TOML metadata values and the parsing of `.toml` metadata
  files, the reading streams over a carton
  file, and `Carton` itself, which encodes a set of files into one `.carton` byte vector and reads it back.
- `src/network/` — the game protocol: packets with acknowledge masks, extension flags and sub-payloads, the
  handshake, the server and client state machines, and the NTP time synchronization between them.
- `src/table.rs` — a small association list keyed by values, with its map view.
- `app/` — the command line programs: building and reading cartons from the disk, and running a UDP server or client.
  They read files, sockets and clocks and hand plain values to the library.
- `tests/` — tests on concrete values.

## What is proved

Every public function states what it returns or changes. Where the work is zstd's or the toml crate's, the contract
speaks of what that crate makes of its arguments (a zstd frame at a level, with or without a dictionary; the TOML
document that a text parses to) and the library's own logic around it is proved. Besides those contracts the library
proves, among others:

- reading a carton that `encode_mut` wrote gives back its file table, its string table and every file's metadata,
  compression, name and sizes (`carton::carton::carton_roundtrip`), built from the roundtrips of its parts: header and
  tables, file records, compression settings, metadata values, file and string tables;
- decoding an encoded packet, handshake, payload or NTP message gives it back;
- a server takes in the handshake that a client of this library sends, and the client connects with the server's
  answer;
- a server tick sends the pending packets, receives what arrived, disconnects the clients that timed out and asks
  each remaining client's NTP peer for the time;
- acknowledge mask shifts compose, and shifting moves every bit by the shift amount;
- the NTP delay is the sum of the two legs, and the best measurement has the smallest delay.
