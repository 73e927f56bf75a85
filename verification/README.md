# pallet_subspace

The epoch of a subspace network, verified with Verus: from the stake,
weights and bonds of the uids of a network it computes which uids are
active, their ranks, incentive, dividends, pruning scores, the emission of
an amount among them, and the new bonds.

All arithmetic is on fixed-point numbers (`I32F32`, `I64F64`, `I96F32`)
carried out by `substrate_fixed`; the library holds each number by its bits.

Modules under `src/`:

- `fixed`: the fixed-point formats, and the functions through which every
  `substrate_fixed` operation is called.
- `sums`: sums of sequences and the bounds that keep the arithmetic from
  overflowing.
- `vector`: normalization, masking and `u16` proportion conversion of
  vectors.
- `sparse`, `sparse_product`: sparse matrices: masking, row and column
  normalization, products with vectors.
- `sparse_ema`: the moving average of two sparse matrices.
- `dense`: the same operations on dense matrices, and their moving average.
- `storage`: the weights, bonds and stake of a network as the epoch reads
  them.
- `epoch`, `epoch_dense`: the epoch on sparse and on dense weights.
- `densify`, `densify_bonds`: the dense matrix of a sparse one, and how
  each sparse operation of the epoch matches the dense one.
- `laws`: properties of the epoch that hold for every network, among them
  that the sparse and the dense epoch agree, that the weights the epoch
  sets aside change nothing, and that scaling every stake changes nothing.

The bonds moving average may exceed one million millionths; the new bonds
then get a negative weight in the moving average.  The sparse epoch keeps
the positive entries of the average; the dense epoch needs each column of
the average to be of one sign, so that normalizing it gives proportions.
