# drone_net

A simulated network of drones, clients and servers. Clients and servers
discover the network by flooding it, learn its topology from the flood
traces, and exchange fragmented messages along shortest source routes;
a controller can crash drones.

- `src/` is the library, verified with Verus: packet model, message
  fragmentation and reassembly, topology and routing, flood handling,
  client requests, controller commands, configuration checks and the
  network graph of a configuration. Its contracts and proof functions
  state what each part does and the properties that tie them together:
  for instance, that reassembling what a client sends gives a non-empty
  text or a default request back whatever order its fragments arrive in
  (an image too, when the PNG decoder gives back what the encoder wrote),
  or that a flood is never passed back to the node it came from.
- `tests/` exercises the library on concrete values.
- `app/` is the program around it: configuration files, channels and
  threads, the node loops, the drone implementations and the web server.
