# numtoys

Number-theory experiments and SAT encodings, written in Verus and proved against their
contracts.

`src/` is the verified library:

- `modmath`, `mont`, `pow`, `s52`, `limbs`: Montgomery multiplication modulo odd 64-bit
  numbers (one number, eight lanes of 52 bits, or 32-bit limbs as a GPU thread computes),
  negated inverses modulo `2^64`, and the addition chains that raise a value to `3^13`,
  `3^14` and `3^27`. The laws tie each Montgomery power to the plain power modulo `m`.
- `sieve`: Euler's sieve and a segmented sieve whose segments run in parallel.
- `search`: the offsets of a block that no small prime divides, and the test of each
  candidate `y` for `3^(3^27) = y - 4 (mod y)`, exact wherever the lane reductions are.
- `digits`, `powdigits`: decimal numerals of powers of two and the search for the first
  one that holds every six-digit string.
- `matrix`, `matpow`: small dense matrices and their powers modulo a number, proved equal
  to the reduced integer powers.
- `satmul`: the CNF of a binary long multiplication `l * r = res`; every model of it gives
  factors whose product agrees with `res` in the bits the multiplication covers, and every
  choice of the unknown bits whose product agrees extends to a model.
- `nosquare`: the CNF colouring `1..=n` so that no two numbers summing to a square share a
  colour; its models are exactly those colourings.
- `pythag`: Pythagorean triples, the numbers in none of them, their ranks, and the CNF of
  the two-colouring with no triple of one colour, whose models are those colourings.
- `wang`, `tiling`: the CNF of a Wang tiling and the decoding of a solver's answer; every
  tiling is a model, and every model is a tiling when the colours fit in the edge bits.
- `cnf`: clauses and their truth under an assignment.
- `text`: decimal text of integers.

`app/` holds the command-line programs that read arguments and files, run the searches in
parallel, print the CNF text and draw tilings. `tests/` runs the library on concrete values.
