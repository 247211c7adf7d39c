# dns_resolver

A small DNS resolver and forwarding server whose packet handling is written
in Verus and proved against a model of the wire format.

- `src/types/` — the 512-byte packet buffer (`bytepacket_buffer`), its
  abstract model (`wire`: buffer state, byte-level writes and reads,
  domain-name encoding and decoding with compression pointers), the error
  type, query types and response codes, and the two text conversions taken
  from std (`text`).
- `src/protocol/` — header, question, resource record and whole packet,
  each with read and write functions whose contracts give their exact
  effect on the buffer, and the decisions of a forwarding and a recursive
  resolver (`lookup`).
- `app/` — the UDP server and the network side of the resolver.
- `tests/` — tests of the library on concrete packets.

The roundtrip properties (what reading gives back of a write) are proved
for numbers, domain names, headers, questions, A, NS, CNAME, MX and AAAA
records and whole packets; see the `lemma_*_roundtrip` proof functions.
Names read back as the lowercased text of their labels; a name of
lowercase ASCII reads back as itself, and so does a record or a message
whose names all are (`lemma_lowercase_*_roundtrip`).
