# lifter

An intermediate representation for lifted machine code, with its passes,
written in Verus and verified against contracts stated over abstract values
(`ExprV`, `StmtV`, `BlockV`, sequences and maps).

Modules under `src/`:

- `ast` — expressions, statements and their abstract values; deep copies and
  equality.
- `text` — `SmolStr` names and the few string operations the library needs,
  as trusted wrappers over `smol_str` and `std`.
- `visit` — pre-order traversals with reading and rewriting visitors.
- `parse`, `fmt` — the text form: reading (`Parse`, `Stmt::parse_many`) and
  writing (`to_string`, `fmt_blocks`).
- `expand`, `simp` — instruction expansion (`push`, `pop`) and peephole
  simplification.
- `blocks`, `names`, `flow`, `ssa` — basic blocks, block successors and
  predecessors, renaming into SSA variables, propagation of block inputs and
  the phi definitions.
- `single_def` — the single-assignment property of the SSA form.
- `inline` — inlining of variables used once or defined as aliases.
- `union` — a union-find over integer keys.

`tests/` runs the library on concrete programs.
