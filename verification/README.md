# opendut

A verified library for openDuT: restbus simulation, resource management and
client registration, written in Verus. The library's functions state their
results in contracts that Verus proves; the calls into outside crates stand
behind a few trusted items whose contracts say what those crates document.

- Restbus simulation (`arxml_document`, `arxml_parser`, `arxml_utils`,
  `init_values`, `timed_frames`, `integer_text`): loads an ARXML description
  with the `autosar-data` crate into a plain document of elements, reads its
  CAN clusters from that document, computes the initial payload of each PDU bit
  by bit, and derives the frames that a restbus simulation sends.
- Resources of the management service (`resource_map`, `resources`, `storage`,
  `manager`): resources keyed by kind and id, in memory or in a database model
  that enforces a reference between deployments and clusters; transactions that
  are committed or rolled back through an undo log; notifications that are
  published channel by channel once a transaction commits.
- Client registration (`registration`): which clients belong to a resource,
  the admin endpoints resolved with the `url` crate, the authorization header
  checked as the `http` crate checks it, and the outcome of deletions.
- The Manson HCS-3304 accessory (`accessory`).

`app/` holds what does I/O around the library: files and their serialized
caches (serde), timing values for the kernel, HTTP requests, logging and the
command line. `tests/` runs the library on concrete values.
