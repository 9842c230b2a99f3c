# ql_miner

A proof-of-work miner client for Quantum Lattice nodes, split into a library
whose behaviour is specified and proved with Verus (`src/`) and a thin program
around it (`app/`).

## Library (`src/`)

- `mining` — templates, the block preimage, the SHA3-256 difficulty rule
  (`has_leading_zero_bits`, `valid_nonce`), hexadecimal template fields and
  wallet addresses, target descriptions.
- `endpoint` — the `NODE_ADDRESS:PORT` grammar, `http://`/`https://`
  prefixes, the order in which a bare address is tried, endpoint labels.
- `http` — request framing, response parsing (status line, chunked transfer
  coding, UTF-8 bodies), and the per-read decision while a response arrives.
- `client` — trying endpoints in order until one yields a template, trying
  resolved addresses in order until one accepts a connection, and the JSON
  body of a submission.
- `dashboard` — the dashboard's lines of text, submission statuses, the count
  of accepted blocks, the shortened miner address, the list
  of found blocks, table cells.
- `cli` — the command line.
- `text`, `number` — white space, trimming, words and lines, searching, ASCII
  case, decimal and hexadecimal integers with the standard library's rules.

Calls into `hex`, `sha3`, `serde_json::to_string` and `std::str::from_utf8` go through small trusted
wrappers whose contracts state what those functions guarantee.

## Program (`app/`)

Argument handling, TCP and TLS (`rustls`, `webpki-roots`), worker threads,
random start nonces (`rand`), Ctrl+C (`ctrlc`), decoding JSON replies (`serde`, `serde_json`),
and the floating-point rates and durations that the dashboard shows.

Run: `ql-miner-multicore [--cuda] [--cuda-device ID | --cuda-devices ID,ID,...] [-j WORKERS] NODE_ADDRESS:PORT YOUR_WALLET_ADDRESS_HEX`.
