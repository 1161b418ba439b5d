# iridium_stomp

A STOMP 1.2 client library whose protocol logic is verified with Verus.

- `src/` holds the verified library: the frame parser and codec (with the
  round-trip law between encoding and decoding), header escaping, heart-beat
  negotiation, the subscription registry and pending-acknowledgement queue,
  the connection's frame dispatch and error tracking, the frames the client
  sends, reconnect backoff, and the command-line session state and report.
- `app/` holds the unverified runtime around it: the tokio TCP transport, the
  background task that performs the I/O and asks the library what to do, the
  subscription stream, and the command-line entry point.
- `tests/` exercises the library from outside.
