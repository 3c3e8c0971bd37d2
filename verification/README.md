# error-forest

Ecological signalling networks modelled as error-correcting codes, with their behaviour
stated in Verus contracts and proved.

- `src/` — the verified library: GF(256) arithmetic and its field laws (`galois`, `gf256`),
  Reed-Solomon coding (`reed_solomon`, laws in `rs_laws` and `rs_correction`), Vandermonde parity codes with
  multi-path redundancy (`phyto_code`, laws in `phyto_laws`), the order of the primitive
  element (`primitive`), interleaved burst correction (`burst_ecology`),
  hub-and-spoke syndrome decoding (`hub_tree`, laws in `hub_laws`), the noisy channel model and
  its error measurement (`mycorrhizal_channel`, `runs`, `network_shannon`) and spore gossip
  (`distributed_spore`). Probabilities appear as integer thresholds on the channel generator's
  21-bit draws, and real-valued ratios as exact fractions.
- `app/` — the floating-point side: noise profiles given as probabilities and their conversion
  to thresholds, path health, capacity formulas, convergence as `f64`, and serde copies of the
  library's types.
- `tests/` — the test suite, run against the library.
