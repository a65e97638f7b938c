# canrun

A small logic programming library: logical variables, values built from
integers, vectors, maps and ranges, and goals that relate values to each
other. A goal is applied to a state; the state records variable bindings,
pending forks (alternatives that are enumerated at the end) and constraints
that wait until the variables they depend on are bound. A query applies a
goal to a new state, enumerates every state it stands for, and reads the
queried value out of each ready one.

Layout:

- `src/value.rs`: variables, their fresh-id source, terms and values.
- `src/collections/`: `LVec` and `LMap`, with their goals (`get`, `slice`,
  `subset`, `superset`).
- `src/goals/`: the `Goal` type and its constructors, projection goals
  (`assert_1`, `assert_2`, `map_1`, `map_2`), comparisons, arithmetic and
  negation as failure.
- `src/kernel/semantics.rs`: the meaning of every kernel operation as a
  function on abstract states, with an explicit step budget.
- `src/kernel/state.rs`, `engine.rs`, `resolving.rs`, `reading.rs`: the
  executable kernel, each operation proved to compute what `semantics.rs`
  says.
- `src/kernel/laws.rs`, `ground.rs`, `budget.rs`, `commute.rs`,
  `store_laws.rs`: properties across operations (bindings are only added,
  unified values agree and reify alike, a unification with an integer reads
  back, either- and any-goals stand for their branches, queries answer only
  from ready states with values that hold no variable, a larger budget keeps
  what a smaller one reached for goals without negation, an assertion and a
  unification commute, the store hands out each constraint at most once).
- `src/kernel/mkmvmap.rs`, `persistent.rs`: the constraint store and the
  persistent `im_rc` collections a state is made of.
