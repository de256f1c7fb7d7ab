# gelo

Split inference between a trusted side and an accelerator that is not trusted, and a retrieval
service over encrypted text, written in Verus.

The trusted side multiplies its activations by a fresh orthogonal matrix along the token axis,
stacks random shield rows under them, and hands the result to the accelerator, which multiplies
it by a public weight. Undoing the mask recovers the product of the activations and the weight.
Answers can be probed with random vectors. Attention scores are computed under additive and
multiplicative blinding, and whole attention layers under a random order of the tokens.

## Layout

- `src/matrix.rs`, `src/scalar.rs`, `src/softmax.rs`, `src/pow2.rs`, `src/text.rs`: the ground.
  Numeric code is generic over a scalar whose operations are given as a record of functions.
  Every contract holds for any such record; 64-bit integers are the instance that is proved to
  meet it.
- `src/rng.rs`, `src/gaussian.rs`: the seeded stream and what is drawn from it.
- `src/haar.rs`, `src/hd3.rs`, `src/dct4.rs`, `src/mask.rs`, `src/shield.rs`: masks and shields.
- `src/integrity.rs`: probing of answers.
- `src/attention.rs`, `src/out_attn_mult.rs`: permuted and blinded attention.
- `src/substrate.rs`, `src/executor.rs`, `src/sim.rs`: engines and executors.
- `src/table.rs`, `src/ple.rs`, `src/snapshot.rs`, `src/profile.rs`, `src/error.rs`: weights,
  embedding tables, recorded offloads, timings and errors. An executor keeps its own timings, and
  says which steps it has timed; how long they took is left to the clock.
- `src/attestation.rs`, `src/service.rs`, `src/tenant.rs`, `src/two_party_service.rs`: retrieval;
  `src/retrieval.rs`: what queries give back of what was stored.
- `src/exact.rs`, `src/householder.rs`, `src/cascade.rs`, `src/recovery.rs`, `src/unblinding.rs`,
  `src/equivariance.rs`: what holds in exact arithmetic. Dense masks are orthogonal and bring the
  matrix that they were drawn from to triangular form, masks of every family recover products,
  probes accept true products and catch a wrong entry, blinded scores come back as they are, and
  attention does not depend on the order of the tokens.
- `app/`: single-precision arithmetic, arrays, threads, vendor kernels and self-wiping secrets.
- `tests/`: over single-precision floats and over integers.
