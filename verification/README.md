# posc

Proof of Schedule (PoSc) consensus as a verified Verus library: block generation scores,
deterministic epoch schedules, the elastic matrix scheduler (eABS), epoch initiation
proposals signed with sr25519, and the pallet's epoch state machine.

## Layout

- `src/` — the library, every function verified:
  - `types`, `seqs`, `runs` — identifiers, sequence helpers, runs of equal entries;
  - `crypto` — BLAKE2b-256, sr25519 and SCALE compact encoding, behind trusted wrappers;
  - `primitives`, `schedule` — scores, schedule configuration and the deterministic scheduler;
  - `eabs` — the matrix scheduler;
  - `eip` — proposals and responses;
  - `pallet` — the epoch state machine with its event log;
  - `consensus_sim`, `schedule_sim`, `byzantine_sim`, `agreement_sim` — models of slot
    ownership, schedule generation, faulty nodes and agreement between nodes.
- `tests/` — tests of the library.
- `app/` — the floating-point share rules, entry points that check the library's
  preconditions, console reports and demonstrations.

The laws the library states (schedule length, valid indices, minimum blocks, determinism,
the consecutive-block limit, proportional eABS shares, agreement between honest nodes,
one producer per slot) are public proof functions whose names start with `law_`.
