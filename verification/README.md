# additive_ntt

Additive number-theoretic transforms over binary fields, verified with Verus.

A transform takes the coefficients of polynomials in the novel basis of Lin, Chung and Han
(<https://arxiv.org/abs/1404.3458>) to their values on a coset of a linear subspace, and back. Several
polynomials can be interleaved in a batch, the data may be packed, and the coefficients may lie in
an extension of the field of the domain.

- `additive_ntt`: the interface, `AdditiveNTT`.
- `on_the_fly`, `precomputed`: the two transforms, which differ in the constants that they keep.
- `transform`, `stages`, `blocks`, `params`: the stages of a transform and the checks before them.
- `novel`, `subspace`: the mathematics. `novel::lagrange_values` says what a transform computes.
- `laws`: what holds of the transforms as a whole, such as that they undo each other.
- `field`, `tower`, `binary_field`, `packed`, `extension`: the fields and packed vectors.
- `bits`: powers of two and binary digits.
