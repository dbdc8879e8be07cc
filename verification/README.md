# fah_balancer

Assigns each running Folding@home CPU core the CPU affinity of one of the CPU groups given on the
command line (`fah-balancer 0-11 12-19`), so that a core's threads run on CPUs of similar speed.

- `src/` is the library, verified with Verus:
  - `text.rs`: decimal numbers, splitting at a character, trimming white space;
  - `arg.rs`: reading CPUs (`N`, `A-B`) and CPU groups (`0-1,5,7`), and the command line as a
    list of groups sorted by size whose CPUs are in range and pairwise distinct;
  - `order.rs`: the stable sort by key, with its laws (sorted, stable, a permutation);
  - `sched_affinity.rs`: affinity masks, one bit per CPU in 64-bit words;
  - `schedule.rs`: the placement of cores into groups, with its laws;
  - `fah.rs`: reading process command lines and `children` files;
  - `ncpu.rs`: the number of CPUs, from the entries of `/sys/devices/system/cpu`;
  - `range.rs`, `error.rs`: what the library relies on of `RangeInclusive`, and the error type.
- `app/main.rs` is the program: reading `/proc` and `/sys`, calling `sched_getaffinity` and
  `sched_setaffinity`, and the polling loop.
- `tests/` exercises the library on concrete values.
