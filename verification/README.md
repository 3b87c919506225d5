# leanda

Commitments to blobs of data, for data availability: blobs are encoded by a Reed-Solomon code of
rate one half, their codewords are hashed by rows and by columns into one digest, and a table of all
the compressions proves that the digest commits to codewords.

- `src/` is the library, verified by Verus. `lean_air` holds the table, the constraints on it, the
  linear claims that tie its rows together, the sumcheck over them and what the verifier decides.
  `lean_da` holds the plan of the tables, the trace and its census. The other modules are the
  arithmetic below (`field`, `ext`, `inverse`, `units`, `binomial`, `frobenius`, `poly`, `mle`, `ntt`,
  `lagrange`), the hash (`poseidon`, `hashing`), the sumcheck of products (`product_computation`) and
  what the programs report (`bench`, `stages`, `timeline`, `traffic`, `text`, `gpu`).
- `tests/` runs the library.
- `app/` holds the programs: command lines, files, threads and clocks. They are linked with a
  transcript and a polynomial commitment, which `app/backend.rs` asks for as traits, and read the
  constants of the permutation from a file.

The public proof functions whose names begin with `law_` state what holds of the library as a whole:

- The extension is a field.
- An honest proof is accepted, whatever the challenges that it can be computed for.
- Constraints leave one row for an input, and links leave one input for what they link. So columns
  that satisfy all of them are the table of the data that they hold, and the output of their last
  row is the commitment to it.
- Columns whose sums vanish for all challenges out of sets as large as the degrees satisfy all of
  them, and the rows of the data that they hold are codewords.
- The parity claim on a table is the sum of the checks of its rows. Where a row is no codeword, one
  of as many weights as rows and of as many points as message elements makes the claim nonzero. The
  proof that the prover then computes is refused.
- Whatever polynomials a prover sends, a false claim is accepted only where one of the challenges is
  among the few that a false round survives.
- The commitment binds to the data up to a collision of the compression. So does the root over the
  columns, and the root over the rows binds to the first halves.
- Any half of a codeword determines its message.
