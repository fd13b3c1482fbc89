# fishbot

A self-play bot for a two-player underwater scanning game, with a verified core.

`src/` is the verified library (Verus):

- `scoring.rs`: scans, reports, first-to-scan bonuses, scores, the highest reachable score and
  the end-of-game rule, stated over `ScoreModel`, with laws on what reports and scans keep.
- `drone.rs`: battery, light and life cycle of a drone.
- `connect4.rs`: a 9 x 7 Connect-4 board on bitboards; `won` is proved equal to "four in a row".
- `decode_base16k.rs`: the base-16k byte encoding (proved to round-trip) and the binary16 to
  binary32 bit conversion.
- `xorshift.rs`, `fish.rs`, `scan.rs`: the game's random generator and creature identities.

The scan sets and first-to-scan tables are fixed arrays indexed by scan id
(`color * 3 + type`): twelve scans, three types and four colors. std's `HashSet<Scan>` and
`HashMap<Scan, i32>` were not used: for a std hash collection keyed by a struct whose `Eq` and `Hash` are derived,
Verus proves nothing of its contents, not even its size after an insert, while integer indices
give exact contracts.

`app/` is the program around it: the floating-point simulation, the Monte-Carlo tree search,
the neural network (tch) and file I/O.

`tests/` exercises the library on concrete values.
