# Hermes

Hermes is a small iterative DNS resolver. This crate is its library,
written in Verus: every function in `src/` carries a contract, and Verus
proves each body against it.

## Layout

- `src/reader.rs`, `src/writer.rs`: packet buffers. Reads and writes are
  specified over the packet's bytes.
- `src/dns/`: the wire format. It covers flags, the header, names with
  compression pointers, questions and resource records. Each part has a
  parse spec and an encode spec, and a round-trip lemma links the two.
- `src/dns.rs`: whole messages. It holds decoding and encoding, with the
  message round trip, and the referrals and glue a reply carries.
- `src/resolver.rs`: iterative resolution from the root servers. The user's
  `DnsClient` sends the queries. Each exchange is recorded through the
  client's own `answered` and `refused` predicates, so the resolver's
  contracts say which server was asked with which request. The decisions the resolver makes on the
  client's replies are verified functions with exact contracts:
  `is_final_reply`, `round_step`, `round_outcome`, `nameserver_query` and
  `nameserver_addresses`. The resolution as a whole is specified round by
  round (`round_ends`, `resolution`).
- `src/address.rs`: server addresses and the sorted address sets the
  resolver keeps.
- `src/header.rs`, `src/name.rs`, `src/dns/answer.rs`: the older header,
  dotted-name and answer readers.
- `src/text.rs`: UTF-8 helpers. It also holds the crate's one trusted item,
  a wrapper of `String::from_utf8`.
- `app/`: the UDP server and the UDP client. Verus does not check this
  part.
- `tests/`: tests that run the library on concrete packets and scripted
  clients.
