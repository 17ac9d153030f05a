# pr1cs

Succinct proofs that a committed integer program was executed, over BN254, with the
library's logic verified by Verus.

A program is a list of instructions: products of linear combinations, divisions with
rounding, table lookups, matrix products and convolutions. It compiles to a circuit of
five sparse matrices and a lookup table. A prover commits to the cells of an execution
and shows by sumchecks that they satisfy the circuit; the entries of the matrices are
opened from a commitment that is made once. A registration shows that the committed
circuit is the compilation of a given list of instructions.

## Layout

- `src/field.rs`, `src/group.rs`, `src/oracle.rs`, `src/radix2group.rs`,
  `src/merkle_tree.rs`: the field, the curve groups, the source of challenges, the groups of
  roots of unity and the trees of hashes. Here stand all the calls into other crates.
- `src/poly.rs`, `src/kzg.rs`, `src/sumcheck.rs`, `src/sparse*.rs`: multilinear
  polynomials, their commitments, sumchecks and the openings of sparse matrices.
- `src/instruction.rs`, `src/program.rs`, `src/circuit.rs`, `src/compiler.rs`: programs,
  what they write, circuits, and the compilation.
- `src/preprocess.rs`, `src/prover.rs`, `src/verify.rs`: keys, proofs and their check.
- `src/registration/`: encodings of programs, the rules that a compilation keeps, and the
  certificates for them.
- `app/`: the parts that need other crates' traits, and the texts of errors.
- `tests/`: tests.

## What is stated

A field element stands for an integer and is equal to another where the two are congruent;
a point stands for the integer by which the base point is multiplied. What a prover sends
is a sequence of such integers, a function of its inputs and the challenges; a verifier is a
function of what it reads.

On top of the contracts stand laws, as public proof functions:

- `openings`, `batch_openings`: an opening of a polynomial is accepted, for its value and no
  other; so is a joint opening of right claims.
- `units`: numbers that fit in a word have inverses in the field, so that the nodes of a
  round's polynomial are told apart whatever its degree.
- `replay`, `interpolation`: a sumcheck of a right claim is accepted.
- `soundness`: a sumcheck of a wrong claim is accepted only if a challenge is a place where
  two polynomials meet, of which there are no more than their degree; and what the stages
  of the check of a proof show about the vectors that their claims are on.
- `multiplicities`: in a sum of fractions that is zero the weights over each value add up to
  zero, unless the challenge is a zero of a polynomial with no more zeros than there are
  fractions; so elements that are looked up are in the table.
- `convinced`: an accepted proof whose claims on the committed vectors, the matrices and the
  public polynomials are right shows that the vector satisfies the circuit, unless one of its
  checks slips.
- `sparse_laws`: the opening of the matrices of a circuit is accepted.
- `products`: what the randomized products of matrices and planes say.
- `execution`, `acceptance`, `inference`: an execution satisfies the circuit, and its proof
  is accepted.
- `refusal`: what an accepted proof has passed.
- `determined`: a circuit that breaks no rule of the compilation of a program leaves no choice
  of what the program writes.
- `randomized`: the advice cells of a matrix product or a convolution add up to what it
  writes, weighted by the powers of the randomizer.
- `registration::compiled`, `registration::accepted`, `registration::slacks`,
  `registration::kept`: a compilation breaks no rule, vectors that keep the rules are
  certified, and the registration of a program that compiles without errors and has at least
  one parameter and one row of lookups is accepted.
- `registration::agreement`, `registration::family_entries`: rows with the same coefficients
  say the same; and the grids of the families give the entries of matrix products and
  convolutions, one after the other, in the order of the rows.
- `registration::args_soundness`, `registration::shown`: a sum that is weighted by `eq`, a
  sum of fractions and a whole certificate show what they claim about the vectors that
  their claims are on, unless polynomials that differ meet at a challenge.
- `transforms`: the two transforms over a group of roots of unity undo each other.
- `poly`: the values at the vertices, and of `eq`.

The laws that something is accepted leave out challenges that are nodes of a round's
polynomial, and denominators without an inverse; those on lookups also a table in which a row
that is looked up stands twice. They speak of committing and opening with parameters that were
generated as the contracts say.
