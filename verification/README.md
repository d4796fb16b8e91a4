# constraint_hamiltonian

Symplectic integration of constrained Hamiltonian systems, split in two:

- `src/` — the verified library (Verus): the shape checks a system must pass
  before integration (`system`), the integration methods (`integrator`), the
  downsampling and CSV header of recorded trajectories (`phase`), MIDI
  variable-length quantities (`vlq`) and the Standard MIDI File export of note
  events (`midi`), each with an exact contract and the laws that tie them
  together (quantities read back as written, time ordering is a stable sort,
  the length field of a file matches its track).
- `app/` — the floating-point dynamics around it: states, constraints with
  user closures, Störmer-Verlet and Euler integrators, constraint projection,
  energy bookkeeping, the float-to-MIDI mapping and serde/JSON support.
- `tests/` — tests of the library.
