# ots

A tax-form computation pipeline, verified with Verus.

A return is described by a form input file (labels followed by amounts,
answers and texts) and a declarative rule schema (fields, rules and hooks).
The pipeline reads the input file, builds the execution DAG of the schema,
runs the rules in dependency order (branches decide which gated rules run,
hooks supply form-specific computations), and prints every field.

## Layout

- `src/` — the verified library:
  - `lexer.rs`, `dsl.rs`: the tokens of form input files and a cursor with
    typed readers; reading a whole file into its statements (`FormState`).
  - `form.rs`: form values, entries and their lookup; yes/no reading of
    values; matching answers against enumeration keys.
  - `schema.rs`, `dag.rs`, `dag_build.rs`: rule schemas, their execution
    DAG, and topological ordering.
  - `expr.rs`, `plan.rs`, `engine.rs`: arithmetic and condition syntax, what
    each rule asks for, and the step-by-step execution of a DAG (which rule
    runs next, which rules branches let run, which hooks may be called).
  - `forms.rs`: the registry of supported forms and the filing-status tests.
  - `trades.rs`: the capital-gains trades listed in a federal form's input.
  - `cli.rs`: the command line.
  - `text.rs`, `strmap.rs`, `literal.rs`, `references.rs`, `import.rs`:
    shared text conventions, a sorted string map, number literals,
    expression references, prior-return import. The maps keyed by text
    (fields, rules, hooks, decisions) are `StrMap`s, sorted vectors whose
    invariant (sorted, unique keys) is proved, so that their contents have
    an exact model: Verus's specifications of the standard maps give next to
    nothing about `String` keys. A number literal reads as zero exactly when
    the standard library parses it to zero, tiny values that round to zero
    included.
- `app/` — the program around the library: file and console I/O, TOML
  loading, and the floating-point work (evaluating rules, form hooks,
  rendering numbers).
- `tests/` — tests of the library.

## Running

```
ots run <form-name> <file-path> [--year <year>]
```

Without `--year`, the year before the current one is used.
