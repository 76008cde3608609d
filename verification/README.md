# vortex

A verified core for an event-streaming broker, written in Verus.

The library (`src/`) holds the broker's logic with contracts proved by Verus:

- `wire`, `text`: big-endian fields, a read cursor, decimal and hexadecimal text.
- `hash`, `record`: Blake3 hash chaining and the CRC32-checked binary record format.
- `frame`, `messages`: the framed wire protocol and its request/response messages.
- `validator`, `quarantine`: ingress validation and the records kept for rejected events.
- `segment`, `partition`: the in-memory state of segment files and partition logs. What a
  segment does to its file is returned as writes to perform; what a read needs from the file
  is handed in as bytes.
- `engine`, `cli`: how the broker routes frames and screens requests, and how a client reads
  replies and audits the hash chain it fetched.

Among the laws proved: every record, frame and message decodes back to what was encoded;
a new segment file and every append keep the file holding the segment, its index and its
records, reopening it recovers them, and reading from it returns those records from the
requested offset within the byte budget; reopening a partition recovers its segments;
rolling and appending keep a partition's segments chained by hash; a read across segments
starts in the segment that holds its start offset, and absorbing each segment's batch keeps
the records read one consecutive, chained run.

`app/` is the program around the library: the TCP server and client, file I/O, JSON
serialization of quarantined events, and the benchmark's timing.
