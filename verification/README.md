# mixed_signals

Deterministic randomness and shuffling for animation and signal work, with the
integer core verified by Verus.

## Layout

- `src/` — the verified library.
  - `random` — pair hashing, index hashing, seed derivation, spatial seeds,
    and the ChaCha8 word source (`rand_chacha`, behind one trusted wrapper).
  - `rng` — `Rng`: a seed and a draw counter; every draw is a pure function of
    both, and the integer draws (`next_below`, `next_between`, `next_ratio`)
    are the exact forms of scaling a unit value.
  - `shuffle` — Fisher-Yates, partial, Sattolo (proved to build a single
    cycle), Faro interleave, riffle (proved to interleave the two packets),
    overhand (proved to reverse the order of its chunks), inside-out copy and
    reservoir, constrained (run-limiting) shuffle, and the stepped riffle and
    overhand animators. Every shuffle is stated exactly as a function of its
    input and the generator state, and proved to keep the multiset of
    elements. Each animator step states its effect on the state, the pass
    count, the pass start and the progress within the pass, and the number
    of remaining steps (exact for the riffle animator, a bound for the
    overhand one). A completed overhand pass equals one call of
    `overhand_once`; a completed riffle pass interleaves the two packets, each
    in its own order, following the animator's own drop rule (which can order
    the drops differently from `riffle_once`).
    The overhand chunk size uses a fixed-point logarithm. No call changes a
    generator's seed except `reseed`.
  - `visualization` — the glyph and span decisions of the oscilloscope once
    samples are cell levels and rows.
  - `processing`, `traits`, `types` — plain data of the signal layer.
- `tests/` — tests of the library on concrete values.
- `app/` — the floating-point signal layer (filters, float draws, weighted and
  smooth shuffles, the ratatui widget) and clock seeding, around the library.
