# language_server

The decision logic of the BAML language server, written in Verus and proved
against its contracts.

- `src/capabilities.rs`: position encodings and the client and server
  capabilities, as plain values.
- `src/server.rs`: negotiating the position encoding, the capabilities the
  server announces and registers, and the single workspace it opens.
- `src/settings.rs`: the client's settings by workspace URL, a map whose
  URLs are distinct.
- `src/gather.rs`: the walk that gathers the `.baml` files below a root
  directory, as a state machine whose caller performs each listing and read.
- `src/gather_laws.rs`: what a whole walk gathers from a fixed directory
  tree, that it finishes on a finite tree, and that it gathers each file once.
- `src/handlers.rs`: which notifications have a handler, and the reaction of
  the open and save handlers to a reload.
- `src/text.rs`: verified string helpers.
- `app/`: the program around it: the stdio connection, the message loop, the
  panic hook, and the walk over the disk.
