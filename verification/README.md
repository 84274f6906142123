# rusting

A committee-based randomness beacon node. Each committee member erasure-codes
its dealt PVSS transcript into one codeword per member, commits to the
codewords with a Merkle tree (the accumulation value is the hexadecimal root),
and sends every member its codeword with a Merkle witness; members check the
codewords, answer valid ones to the whole committee, and agree level by level
on the values through graded and binary agreement.

The library under `src/` holds the node's logic with its specifications,
verified with Verus:

- `text`, `text_facts`: the text operations the protocol's formats rest on
  (split, join, replace, trimming, number and byte-list notations) and facts
  about them.
- `merkle`, `pvss_agreement`, `deliver`: the Merkle commitment (rs_merkle,
  sha2), the Reed-Solomon encoding (reed-solomon-erasure) and dissemination.
- `codeword`, `dissemination`, `retrieve`, `retrieval`, `selection`: checking
  received codewords, answering them, collecting retrieved codewords, and
  committee selection.
- `accum`, `gba`, `phases`, `reactor`, `buffer`: the counting rules and
  messages of the agreement phases, the recursive halving of committees, and
  the store of reports that arrive for a later level.
- `node`: the node's state machine for the accumulation and agreement
  phases: `reactor_start`, `reactor_step` (one received message to the next
  state and the messages to send, as `reactor_spec_step` states it) and
  `advance_level`.
- `message`, `generic`, `wire`, `communication`, `committees`: message types,
  the text framing between nodes, port plans and the committee table.
- `keys`, `adversary`, `beacon`, `aggregate`: node keys (schnorrkel), the
  behaviour of an adversarial node, the beacon value (SHAKE256).

`app/` is the program around it: argument handling, files, the TCP network
links, the phase timer, and the loop that hands each received message to
`reactor_step` and sends what it answers.
