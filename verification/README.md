# tlottie

A renderer for Lottie animations whose logic is verified with Verus.

`src/` is the library. Every function in it carries a contract, and Verus proves that the code meets
it, terminates and never panics. `app/` is the program around it: the command line, the C interface,
and everything that is computed in floating point. `tests/` runs the library on concrete input.

## What the library does

| | |
|---|---|
| Reading | `json`, `number`, `tree`, `names`, `decode` read JSON; `property`, `shape`, `layer`, `composition` read a Lottie file within `limits`, with `options`; `error` says what was wrong and where |
| Budgets | `budget` bounds the work that a frame may cause |
| Planning | `plan` orders layers and their surfaces; `scene` and `trim` collect outlines and paints from shapes; `still`, `static_jobs` and `jobs` record and replay the paints of layers that stand still |
| Stroking | `stroke` and `pieces` put outlines together from measured corners; `style` names caps, joins and rules |
| Rasterizing | `touched` remembers which cells were written; `spans` and `plane` hold coverage |
| Painting | `argb`, `blend`, `gradient`, `stops`, `luts` compute pixels; `canvas` and `fill` paint coverage, fresh or from `cov_cache`; `replay` and `recall` prove that both put the same pixels and mark the same rectangle |
| Composing | `dirty`, `compose`, `mask`, `renderer`, `scratch` keep surfaces, masks and mattes; `tidy` proves that a surface is clear wherever nothing is noted as written |
| Output | `pixel`, `png`, `host` turn frames into bytes; `heap` counts addresses for a host's allocator; `stats` counts what was done |
| Keys | `hash` keys geometry, gradients and layers |

Points and other measured values never enter the library as numbers: it takes what was found out
about them (that a corner is sharp, that two points coincide) and decides what follows.

## What is trusted

Two functions of the standard library are called through declared contracts: `Vec::capacity`, of which
only that it is at least the length is used, and `Vec::shrink_to_fit`, which keeps the elements. Both
stand in `src/cov_cache.rs`.
