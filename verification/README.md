# solver

A heads-up no-limit hold'em postflop solver and a multiway preflop lab. The
core is a Verus library: its functions state in their contracts what they return,
and Verus proves it.

- `src/` is the library: cards and hand strengths, ranges, game trees,
  discounted counterfactual regret minimization with compressed arenas and suit
  symmetry, best responses, node locks, player profiles, saves, the preflop
  game with its seat models, and the state machines behind solves and reports.
- `app/` is the program around it: a local web server and a command line. It
  reads and writes files, talks JSON, and brings the floating-point numbers.
- `tests/` run the library.

## Numbers

The library calculates with any type that implements `num::Num` (and
`num::Single` for the numbers that arenas store). Contracts say which operation
is applied to which operands, in which order, and leave what an operation
returns to the type. The program and the tests use the machine's floating-point
numbers. `nano::Nano` is an exact fixed-point type whose operations are fully
specified; laws that need arithmetic are stated of it.

## Laws

Properties of the library as a whole stand as public proof functions named
`law_...`, among them:

- what is saved is read back and loads (`save`, `load_laws`, `framing`), and a
  saved preflop game is the same game and goes on the same (`game_laws`);
- a range's text and a list of sizes are read back (`range_laws`, `sizing_laws`);
- trees keep to their node budget, follow from their configuration, and give
  every node but the root one parent (`growth_laws`); arena blocks do not overlap
  (`tree_laws`);
- hands are shown down for equal contributions, and chips leave only as rake
  (`pot_laws`, `chip_laws`);
- a canonical path is settled (`symmetry_laws`), and folding symmetric runouts
  does not change what is learnt (`fold_laws`);
- locks rule and come off again (`lock_laws`), profiles keep the user's own locks
  and lock only the villain (`profile_laws`), seats that are held stay put
  (`preflop_laws`);
- strategies and frequencies add up to one (`play_laws`, `rake_laws`), raked
  ranges come near their targets (`target_laws`), and a best response is worth at
  least what is played (`response_laws`), up to stated rounding;
- card removal is exact (`removal_laws`); where no rake is taken, what one player
  wins the other loses (`zero_sum_laws`) and shown values share the pot
  (`share_laws`), up to stated rounding;
- quantized blocks come back within half a step (`store_laws`);
- the estimate of a preflop tree is its size (`preflop_build`).

## Running

    solver                                          # serves on port 3737
    solver solve spot.json [max_iterations] [target_pct]
    solver batch spot.json boards.txt [max_iterations] [target_pct]

`PORT`, `SOLVER_THREADS`, `SOLVER_COMPRESS`, `SOLVER_MEM_MB`,
`PREFLOP_EQ_SAMPLES`, `PREFLOP_MAX_NODES` and `PREFLOP_MAX_ARENA_MB` tune it.
