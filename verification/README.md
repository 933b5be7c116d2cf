# flock_channel

Multiset channels over a circuit's cell space, verified with Verus.

A channel is two multisets of tuples of field elements, pushed on the left and
pulled on the right. Tuples come from the live rows of gate tables and from
public words. A tuple `t` has the fingerprint `beta + sum_k alpha^k t[k]`, and a
channel proves the two products of the fingerprints, reduced to evaluation
claims on one committed buffer. A verifier requires the products to be equal
(pushes equal pulls, multiplicity included) or exports both.

## Layout

| Module | Contents |
| --- | --- |
| `field`, `inverse` | `GF(2^128)` and its laws; every element but zero has an inverse |
| `sums`, `multilinear` | finite sums and products, the equality polynomial, multilinear extensions |
| `roots`, `collisions` | root counting; how often products of different multisets agree |
| `challenger` | the transcript, its challenges and the work behind them |
| `circuit`, `pcs` | where words stand in the buffer; evaluation claims |
| `sumcheck`, `product_gkr` | the product argument |
| `channel` | sources, specs, proofs and their shapes |
| `tuples`, `recombination` | the tuples of a spec, their leaves and what they fold to |
| `fingerprint_challenge` | how a channel's challenge is drawn |
| `prove`, `verify` | the prover and the verifier |
| `balance`, `soundness` | what a channel's products, and an accepted proof, say of its tuples |
| `determinism` | what a prover reads determines what it sends |

`app/` mirrors the types with serde's derives.

## What is proved

- The verifier returns exactly what `verify::channel_verdict` says of a proof,
  with the first error in the order of its tests.
- The prover's proof is accepted, unless the products must be equal and are not;
  its products are those over the tuples, and its claims are the folds of the
  buffer's columns at the point of the product argument.
- Equal multisets have equal products at every challenge. Different multisets of
  at most `N` tuples of width at most `W` have equal products at no more than
  `N W 2^128` of the `2^256` challenges.
- An accepted proof whose claims hold of the buffer has the products over the
  buffer's tuples, unless a challenge of the product argument is among at most
  three that were determined before it was drawn.
- A proof accepted under two challenges has, on each side, the same product at
  both, with the same exception.
- Without grinding, the words and live rows that a channel names determine the
  proof.

## What is trusted

The leaves of gate rows are filled by a parallel loop of `rayon`, in
`prove::fill_gate_leaves`. Its contract is believed: the loop calls the given
function once on each entry, with the entry's position.

The challenger is a parameter. The contract of its trait says that it answers as
a function of its transcript; `challenger::CoinTape` is an instance.
