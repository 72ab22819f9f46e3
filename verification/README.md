# hammer

A load-testing client for a Solana cluster. Worker threads send random transactions that
call copies of a test program; each transaction is a row of commands that fail, compute,
allocate and free memory, or read the system variables, grouped into instructions that
contend for a pool of accounts and are partly wrapped into cross-program invocations.

`src/` is the verified library:

- `draws`, `generate`, `plan`, `instructions`, `cpi`, `transaction`: how random numbers
  become a transaction. Every result is stated as a function of the numbers drawn.
- `bytes`, `decimal`, `commands`: the encodings.
- `pubkey`, `keypair`, `accounts`, `command_accounts`, `message`, `signatures`: addresses
  and keys, the accounts that transactions touch, messages and who signs them.
- `blockhash`, `leaders`, `tpus`, `refresh`, `rpc_clients`: what is known of the cluster,
  and when it is fetched again.
- `worker`: what a worker does, as a state machine.
- `args`, `options`: the command line, and that the order of its options does not matter.

`app/` is the program around it: threads, files, the network. It reaches the servers by
`solana-rpc-client`. Nothing uses `url` directly: it is pinned in `Cargo.toml` to a version
before those that bring in the ICU crates, to keep the number of packages down.
