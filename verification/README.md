# datasketches (REQ compactor)

The relative compactor of the Relative Error Quantiles (REQ) sketch, with its
behaviour stated in Verus contracts and proved.

- `src/common/random.rs` — the xorshift64 generator behind the compaction coin,
  and its clock seed.
- `src/req/mod.rs` — the sketch's integer parameters.
- `src/req/keys.rs` — the order-preserving map between `i64` items and keys.
- `src/req/compactor.rs` — ordering and sorted merge of item keys, the
  compactor, its abstract model (`CompactorModel`) and the lemmas about both.
- `app/lib.rs` — what the library cannot hold: the floating-point section-size
  rounding that yields each compactor's section size schedule, the error-model
  constants, the per-thread generator state (and compaction with it), and
  order-preserving keys for `f32` and `f64` items.
- `tests/` — tests of the library on concrete values.
