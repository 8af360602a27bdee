# cs140

A network stack that sends data through sound: bits are line-coded (4B/5B, NRZI) and
played as samples, frames carry a length, flags, addresses and a CRC, packets are split into
frames and gathered again, a stop-and-wait link acknowledges frames one by one, a transport
layer moves whole transfers with selective acknowledgements and round-trip probes, and a
Reed-Solomon code adds redundancy to messages.

- `src/` is the library, verified with Verus: the codes, the frame formats, the buffers,
  fragmentation and reassembly, the transport and link state machines (each a function from
  state and event to state and actions), the erasure-code framing, and the laws that tie
  them together (round trips of NRZI and of the frames, of 4B/5B on bit strings whose
  length is a multiple of four, delivery of a loss-free transfer, recovery of a message from
  enough shards).
- `tests/` runs the library on concrete values.
- `app/` is the part that cannot be verified: the sound devices, reading samples as bits
  (floating point), the asynchronous layers and the loops that feed events to the state
  machines and carry out their actions.
