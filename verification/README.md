# vers-vecs (verified)

Succinct data structures over bit vectors, written in Verus and proved against
their contracts:

- `bit_vec`: a growable vector of bits packed in 64-bit words;
- `rs_vec`: rank and select over a bit vector, with the specifications `ones`,
  `rank1_spec`, `select1_spec` and their zero counterparts;
- `elias_fano`: an Elias-Fano encoding of 64-bit values with access and
  predecessor queries; for sorted values `get(i)` is the `i`-th value and
  `pred(n)` the greatest value at most `n`;
- `trees`: the excess model of parenthesis sequences, a min-max tree over blocks
  (`trees::mmt`), and the balanced-parentheses tree `trees::bp::BpTree` with its
  depth-first builder. Forward and backward excess searches, `close`, `open`,
  `enclose` and the navigation operations are specified over the excess, for
  balanced and unbalanced sequences alike. `trees::bp::laws` proves what the
  operations promise together: `open` and `close` invert each other (and always
  find their match in a balanced sequence), siblings, last children, depth and
  parent, level ancestors, and `level_next`/`level_prev`.

No item of the library is trusted: every function is verified, and no outside
crate is called. The tests under `tests/` run the library on concrete values and
compare it with brute-force computations.
