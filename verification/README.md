# tcp_tunnel

Tunnels TCP connections through a pipe: the incoming end accepts TCP
connections and forwards their bytes, framed, into the standard input of a
child process; the outgoing end reads the frames from its own standard input
and opens a TCP connection for each tunnelled connection.

- `src/` is the verified library: the wire format (`codec`, on top of
  `tokio_util`'s length-delimited framing in `frame`), the connection
  dispatcher (`dispatcher`), and the decisions of the two ends of a
  connection (`tcp`).
- `app/` is the program around it: the command line, the tokio tasks,
  sockets, channels and the child process.
- `tests/` exercises the library on concrete values.
