# mangle

The core of a Datalog engine, verified with Verus: types and their inference, planning of
rules, generation of WebAssembly, the order in which a program is run, and the storage of
relations. Every function of the library states in its contract what it returns, and is
proved to do so and not to panic.

## Layout

`src/` is the library.

- Programs: `ir` (the arena of instructions), `relations`, `names`, `text`, `messages`.
- Types: `type_expr`, `wellformed`, `conform`, `has_type`, `type_bounds`, `type_ops`,
  `name_trie`; `infer`, `bounds_infer` and `bounds_check` check a program against its
  declarations. `type_laws` and `expansion` hold what is proved of conformance, of bounds
  and of tagged unions as a whole.
- Plans: `physical` (operations), `plan_expr`, `planner`, `schedule`, `driver`, and
  `execution`, a state machine that names the steps of running a program. `plan_meaning`
  says which rows a plan derives and which a rule gives; `plan_laws` proves that they are
  the same, with `plan_terms` and `plan_reads`, and `round_laws` what follows of plans that
  read the new rows of a relation only. `group_laws` says what rules with groups derive.
  `program_plans` proves that the plans of a whole program stand for its rules, and
  `program_laws` that a finished execution leaves rows that are closed under them.
- Code: `wasm` (modules as plain values), `codegen`, `host`; `code_laws` proves that the
  generated code is valid, and `code_tables` that the texts it asks for are in the tables
  of the module.
- Values: `value`, `calendar`, `codec` (rows as bytes); `calendar_laws` proves that the texts
  of times and durations can be read back.
- Storage: `store` (the interface), `tables`, `mem_tables`, `disk_names`, `disk_model`,
  `row_counts`, `disk_store`; `store_laws` holds what is proved of a store over any number
  of rounds; `database`, `cache`, `file_backend`, `source`, `predicate`; `columns` and
  `delta` for columnar and partitioned tables.

`tests/` runs the library, with the outside crates linked. `app/` is ordinary Rust around
the library: files, the key-value store on disk, columnar batches, and the loop that
performs the steps of an execution. It is not verified.

## What is not proved

Calls into outside crates stand behind small functions marked
`#[verifier::external_body]`. The comment above each names the outside function and says
what is believed of it. They are in `names` (hash maps and sets), `text` and `value`
(strings), `codec` (variable-length integers), `cache` (a hash) and `wasm` (the binary form
of modules).
