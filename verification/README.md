# mgk_cont

A verified scheduling core for an M/G/k queue with a continuous resource:
each job holds a share of the servers' resource while it is served, and a
policy decides the order of the queue and which jobs are served at once.

All times, sizes and resource shares are fixed-point integers: `UNIT` stands
for one time unit, one unit of work, or the resource of one server, and
`EPSILON` is the smallest amount that counts.

- `src/job.rs` – jobs and sums over them.
- `src/policy.rs` – the policies, their sort keys and selection rules.
- `src/sort.rs` – the stable sort of the queue by a policy's key.
- `src/selection.rs` – prefix scan and backfilling.
- `src/buckets.rs` – bucket pairing by service requirement.
- `src/rate.rs` – the bucket count for an arrival rate.
- `src/schedule.rs` – which jobs a policy serves, and why they fit.
- `src/simulation.rs` – the event loop's state and its two transitions:
  `step` (to the next completion or arrival) and `add_arrival`.
- `app/main.rs` – sampling with `rand`/`rand_distr`, the loop that drives the
  library, and the floating-point report.
