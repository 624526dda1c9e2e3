# solver-core

Counterfactual-regret solving for no-limit hold'em, verified with Verus.

The library under `src/` holds the engines: chance-sampled MCCFR, vector CFR from the flop on
(over hands and over buckets of hands), CFR over the classes of starting hands before the flop,
depth-limited search against blueprint continuations, lifts between trees of different bet sizes,
bucketed showdowns, cluster corrections for several opponents, and preflop equities.

Every engine is generic over its numbers (`scalar::Scalar`). Contracts say which operations are
applied to which entries in which order; how one operation rounds is the number type's affair.
Where a law needs numbers that keep the laws of arithmetic, it says so. What `exact::is_exact`,
`buckets::has_units`, `one_variant::has_whole_shares` and `sure_showdowns::has_sure_odds` ask for is
met by whole chips (`whole_chips`). `response_laws::is_rational` adds the order and quotients of the
rational numbers, and `one_bucket::widens_exactly` asks that widening and its quotients do not round;
no number type of the library goes that far.

Laws that relate several functions are public proof functions named `law_..`, next to what they
speak of or in a `.._laws` module.

The one function that is trusted and not proved is `parallel::par_map`, which hands independent
pieces of work to rayon.

- `src/`: the verified library
- `tests/`: its tests, on machine floats
- `app/`: machine floats as numbers, river buffers and equity tables in files, printed reports
