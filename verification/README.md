# aether

Petri-dish life: organisms whose bodies and nervous wiring grow from packed
32-bit genes, feed on particles, pair up for offspring and die; runs can be
kept as named saves.

## Layout

- `src/` — the verified library (Verus):
  - `genome` — genes, founders, crossover and mutation, gene distances;
  - `brain` — the wiring a genome grows into, pruning of inner neurons
    that reach no action, display order and labels;
  - `world` — food varieties, edge effects, birth pairing, feeding;
  - `spatial` — grid buckets and the neighbour pairs they yield;
  - `store` — the book of named saves (save, load, rename, delete, list);
  - `stamp`, `text`, `wrap` — time stamps, numerals, trimming, word wrap;
  - `audio` — the WAV container of the sound effects;
  - `chance` — the random draws taken from the seeded generator.
- `tests/` — tests run against the compiled library.
- `app/` — a command-line program around the library: the floating-point
  dish dynamics, the SQLite file of saves, and sound synthesis.
