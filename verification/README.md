# biquad_iir

A second-order (biquad) IIR filter run in place over sample buffers, in the loop forms that a
benchmark of vector, slice and array buffers compares, and the driver that pushes a buffer
through a bank of filters round after round.

- `src/biquad.rs`: the filter, its model (`state_after`, `filtered`) and the laws of a run:
  block processing, one result per input, coefficients kept, memory of the last samples.
- `src/kernels.rs`: the loop forms, each proved to compute `filtered`.
- `src/bench.rs`: the benchmark's constants, the number of rounds, and the bank driver with
  its model (`bank_filtered`, `rounds_filtered`) and laws.
- `app/main.rs`: the timed benchmark program. The arithmetic of one filter step is floating
  point and is handed to the library as a closure.
