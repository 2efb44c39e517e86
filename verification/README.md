# rvllm_bidirectional

A bidirectional Llama encoder on the CPU, verified with Verus: rotary position tables with the
standard and the Llama 3 frequencies, full-sequence attention with grouped key/value heads, and the
layer stack that turns token ids into last hidden states.

- `src/` is the verified library. `float` holds floats by their bits; sums, products and
  transcendental functions come from a `FloatUnit`, of which nothing is assumed. Contracts say which
  operations produced a value, on which operands and in which order. `layers` does the same for the
  dense kernels.
- `app/` puts the library on the floats of the machine and adds tracing.
- `tests/` runs the library on real floats, and compares it bit by bit with plain loops.
