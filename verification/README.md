# wordle_bits

A Wordle helper whose core is verified with Verus.

A word is five letter numbers (`a` is 0). A candidate secret is turned into a
*secret bitmap* and a guess with its colours into an *information bitmask*, both
11 rows of 26 columns packed in three `u128` words; a candidate agrees with the
information exactly when the two share no one bit. The proofs show that this
single `and` keeps precisely the words against which the guess earns the same
colours as against the real secret.

- `src/bitmap.rs`: the 384-bit maps and the bit writers, with their set of one bits as model.
- `src/feedback.rs`: the colours a guess earns against a secret.
- `src/counting.rs`: letter counts used by the specifications.
- `src/encoding.rs`: secret bitmaps and information bitmasks.
- `src/laws.rs`: the proof that the bitmask test is exact.
- `src/solver.rs`: narrowing the possible secrets and scoring guesses.
- `src/ranking.rs`: ordering scored guesses.
- `src/words.rs`: letter numbers, word lists, and their round trips.
- `src/entry.rs`: reading a player's entry and applying it.
- `app/main.rs`: the interactive program: files, terminal, threads and float averages.
