# wacca_touch

Serial protocol logic for a bridge between a WACCA cabinet's game board and
its touch unit boards, verified with Verus.

- `src/frame.rs`: packet layout (address, command id, payload, XOR checksum,
  end byte `0xF0`), encoding and decoding, round-trip laws.
- `src/unit.rs`: packets as read from the unit boards' line, splitting a burst
  into packets, touch and version reports.
- `src/game.rs`: sync board parameters, the version packet, touch bit layout.
- `src/bridge.rs`: the answer to each game message and the touch frame.
- `src/wacca.rs`: the threaded variant's packets and per-message plan.
- `src/utils.rs`: checksum, byte copying, UTF-8 version text.
- `app/`: the program with the serial ports, threads and loops.
