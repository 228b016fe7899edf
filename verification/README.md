# repx

Reproducible build-process attestations. A build is traced, what it did is
brought into a form that does not depend on the machine, and a Merkle root
commits to the set of covered operations. Running the build again and comparing
roots answers a narrow question: did this command reproduce the same covered
operations and the same selected outputs?

## Layout

- `src/` is the library, verified with Verus: every function states what it
  returns, and the laws that hold of the library as a whole stand beside the
  functions as public proof functions named `law_...`.
- `app/` is the program around it: the command line, files, processes, the
  kernel programs and the ring buffer.
- `tests/` runs the library.

| Module | What it does |
| --- | --- |
| `events`, `tp_offsets` | records of the ring buffer |
| `probes` | what the kernel programs decide |
| `tracer` | from records to traced events |
| `file_identity`, `digest` | what stands for a file |
| `operation`, `canonicalize` | canonical operations of a whole trace |
| `provenance`, `writers`, `slice` | operations that outputs depend on |
| `workspace`, `paths` | snapshots, changed files, selected outputs |
| `merkle`, `attestation`, `json` | roots and what they commit to |
| `dsse` | signed envelopes and keys |
| `attest`, `report` | attesting, verifying, explaining, comparing |
| `stability`, `harness` | repeated runs |
| `order`, `text` | sorted lists, strings |

## What is trusted

Hashing (`sha2`), signatures (`ed25519-dalek`), Base64 (`base64`), hexadecimal
digits (`hex`), JSON strings (`serde_json`), random seeds (`rand`), and of the
standard library `String::push` and the check that bytes are UTF-8. Each is
called through one item whose comment says what is claimed of it.
