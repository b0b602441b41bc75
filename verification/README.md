# mesh_semantic

Deterministic causal admission for the signed facts of a mesh: role grants,
admissions, evictions, attestations, resolutions and stand-downs. The library
is verified with Verus; every function states what it returns, and when it
refuses, over the mathematical views of the types.

## Layout

- `src/` is the verified library.
  - Collections and helpers: `order`, `ordset`, `ordmap`, `multimap`, `sums`,
    `listing`, `capture`.
  - Identities and facts: `base32`, `device`, `ids`, `content`, `encode`,
    `fact`, `error`, `policy`, `checks`.
  - Reading a graph: `graph`, `reach`, `causal_order`, `authority`,
    `evaluator`, `validation`, `projection`, `impact`, `evidence`.
  - Changing a graph: `index`, `provenance`, `costs`, `accounting`,
    `quarantine`, `admission`, `retry`, `sweep`, `journal`, `aggregate`,
    `delta`, `rollback`, `cold`, `rebuild`, `restore`.
  - Leaving and coming back: `checkpoint`, `continuation`, `restart`.
  - Laws, each under the conditions that its `requires` names. Most speak of
    sound graphs (`soundness`): those that a started graph reaches by whatever
    admission, retry, journal, group or snapshot, with facts that sign for all
    that they build on.
    - `canon`: the indexes are those of the facts, whatever order they came in.
    - `impartial`: two receivers judge a fact alike, and what one inserts the
      other inserts too, or has no room for.
    - `exactness`: the projection kept up to date is the one that all facts
      give.
    - `growth` and `carrying`: the entries of a record carry the projection.
    - `refit` and `recount`: a rebuild gives the indexes, counters and
      projection that admission had kept, and a second one changes nothing.
    - `charge`: what the indexes are charged is what they take.
    - `selection`: a selection is the sole head and stays selected.
    - `linkage`: waiters wake when their inputs are here.
    - `coverage`, `undo` and `detach`: what is rolled back leaves no trace, and
      staged history leaves with it; `coldback`: the same for a graph whose
      history was retired.
    - `upkeep`: a graph stays sound through all that is done to it, and a
      restart gives it back, also sealed.
    - `continuity`: a restart gives back what was written.
    - `residence`: retirement keeps what the projection names.
    - `reordering`: the order of snapshot rows is not authoritative.
    - `standing`: when a graph can take more.
- `app/` is ordinary Rust around the library: serialization, shared and cached
  values, guards that roll back when they are dropped.
- `tests/` are plain tests.

## What is taken on trust

The contracts of `data_encoding`'s base-32 codec (`base32`), of
`ed25519_dalek`'s check of a public key, and of three functions of the
standard library on text (`device`). Each stands beside the call, with a
comment that says what is claimed.
