# mlsys

A scheduler for computation graphs on a machine with a small fast memory and a large slow one.
Given tensors, the operations between them and the two memories, it makes a schedule: groups of
operations that run as one, the tile in which each group works, and the tensors that stay in fast
memory from one group to the next.

`src/` is the scheduler as a Verus library. Contracts say what each function returns; public proof
functions state what holds of several of them together, such as that every schedule holds every
operation once, that its groups fit in fast memory wherever a tile allows it, that simplifying a
graph loses no result and nothing that a result depends on, or that tensors that share memory are
never alive at the same time. All quantities are whole numbers: shares are percents, and times are
counted in units that are small enough to be exact.

`app/` is the program around it: it reads and writes JSON, finds out about the machine, estimates
latencies in floating point, and lets strategies race each other in processes of their own.

Bit sets come from the `bit-set` crate; what the library relies on there is written down where
`src/bitset_liveness.rs` calls it.
