# npb

Integer kernels of the NAS Parallel Benchmarks EP and IS, verified with Verus.

- `src/lcg.rs`: the generator `x -> a * x mod 2^46` on integer seeds, computed
  through 23-bit half-words (`mul_mod46`, `randlc`), a batch of consecutive
  seeds (`vranlc`), and the jump-ahead by binary exponentiation
  (`find_starting_seed`), with the laws that relate them.
- `src/keys.rs`: the bucket sort of the IS keys and the count of out-of-order
  pairs (`verify_sort`), with the laws that the sort permutes the keys and
  sorts them when buckets follow the key order.
- `src/classes.rs`: the problem classes of both benchmarks.
- `app/`: the command-line programs (`ep CLASS`, `is CLASS`): threads, timers,
  printing, and everything computed in floating point (Gaussian deviates,
  bucket indices of keys, the double/`BigDecimal` key generator of IS).
