# edwards_bls12_accel

Foreign-field acceleration for the Aleo Edwards-BLS12 curve, verified with Verus.

- `src/limbs.rs` — four- and eight-limb little-endian arithmetic (schoolbook
  product, wide subtraction and division) and its value model.
- `src/sdk.rs` — the base field `Fq` (canonical limbs, arithmetic against
  `fq_add`/`fq_sub`/`fq_mul`) and twisted-Edwards points in extended
  coordinates with double-and-add scalar multiplication.
- `src/curve_laws.rs` — laws of the point formulas: the sum is the affine
  twisted-Edwards sum, addition commutes, sums, doubles and scalar multiples
  of valid points stay valid, and identity, negation and doubling behave as
  in the group.
- `src/record.rs` — the record identity `x*y = w*q + z`, its seven 64-bit
  product columns with signed carries, and the committed witness (word,
  offset-carry and 2-bit digit columns).
- `src/bind.rs` — the head-pad rule, the LEB128 header word, and the weld that
  ties every field op to its 16-word block in the advice region.
- `src/sequence_builder.rs` — host-side advice: the normalized invocation log
  and the padded record blob.
- `src/guest.rs` — the guest's checks on an advice result.
- `src/event_log.rs` — the transcript event line and the caller-frame
  extraction from a backtrace.
- `app/` — thread-local log, environment/file/backtrace access of the event
  logger, and the serde form of `Fq`.
