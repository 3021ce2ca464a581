# port_ops

Finding which process owns a network port, finding processes by name, and
taking down a process together with everything it started, on Linux,
Windows and macOS.

The library (`src/`) holds the logic, each function with a contract that
Verus proves:

- `linux`: the socket tables under `/proc/net`, socket inodes to pids,
  processes by `comm` name, parent links from `stat`.
- `windows`: the socket tables of the IP helper interface (IPv4 and IPv6,
  TCP and UDP) read from their bytes, processes of a tool-help snapshot by
  executable name and by parent.
- `macos`: the output of `lsof` and `pgrep`, and a depth-first walk that
  asks for the children of one process at a time.
- `tree`: the breadth-first walk below a process and the order of signals
  that takes the tree down, children before parents, the root last.
- `pids`, `text`: sorting pids, and the text operations the parsers use.
- `api`: the decisions of waiting for a port and of killing by port.

`app/` is the Node addon around it: it reads the operating system's tables,
sends the signals, sleeps between polls, and exposes the calls to
JavaScript.
