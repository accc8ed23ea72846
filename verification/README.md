# tikv_parity

Do two clients of a transactional key-value store behave the same? Both are driven through one
scenario, each run is recorded as a trace, and the traces are projected and compared.

`src/` is the library, verified with Verus:

- `class`, `observation`, `command`, `trace`, `json`: the vocabulary of the protocol.
- `isolation`: every key lands under its run's own prefix, and the prefix is redacted before two
  runs are compared.
- `project`, `comparison`: what a comparison looks at, and what it sees and does not see.
- `scenario`, `run`, `driver`: scenarios, and the runner as a state machine.
- `mapping`, `dispatch`, `paging`: the driver of the Rust client.
- `store`, `commit`: a metadata store in which one write batch is one transaction.
- `harness`, `cluster`, `placement`: what the suites need of a cluster.
- `order`, `text`, `base64`, `sorted`: what the rest is built on.

`app/` holds the programs around it: processes, files, the network and the wire formats. Under the
name `parity-driver-rust` it is the driver of the Rust client; under any other name it is the runner.
`tests/` holds the tests of the library.
