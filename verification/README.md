# evaluations

Exploration of the recursive complexity of numbers: forms built from `0`,
the successor `^(…)` and the recursor `R(U#,a,b)` are enumerated, evaluated,
and the shortest form known for each value is kept. The search can stop at
any moment and resume from the cursor it last committed.

The library under `src/` is verified with Verus:

- `form`, `grammar` — the syntax of forms and how longer forms are built.
- `evaluator`, `meaning` — evaluation with a memo, a lookup of known values
  and a step limit, proved to return the value a form denotes.
- `synthesis` — the forms of one length, in a fixed order, from the shorter
  strata; the order index is the resume coordinate of the length sweep.
- `engine` — the two exploration modes as step functions from state to
  action, the commit plan (what to write, in order), and retrying of forms
  that ran out of steps. A form already stored when its turn comes is
  offered to the index again, so that replaying a batch after a crash
  between the store write and the index write indexes it (proved as
  `law_swept_forms_are_indexed`).
- `store`, `layers` — two-layer FST stores, frontiers, and the index of
  shortest forms, over the `fst` crate. A store or layer read from bytes is
  `intact` when fst wrote those bytes, and every read of one requires it:
  fst may panic reading bytes it accepts without having written them. Layers
  are read on 64-bit targets only.
- `certify` — whether a shortest known form is certified shortest.
- `maintenance`, `fst_inclusion` — upkeep of the FST files, over intact
  layers (`MapLayer`, `SetLayer`).
- `text`, `collections` — texts, numerals and ordered collections.

`app/` holds the command-line programs (`explore`, `min_form`, `ls_eval`, …)
that read and write the project's files and run the engine's steps.
