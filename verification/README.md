# turbo_tasks

The deterministic core of the turbo-tasks engine and of the turbopack asset
pipeline, written in Verus with its behaviour stated in contracts and proved.

`src/` is the verified library:

- `task_type`, `backend`, `stats`, `merge`, `tree`, `assoc`: task statistics —
  counting tasks by type, folding resolve tasks into the tasks that refer to
  them, and grouping task types into a tree by their child references.
- `manager`, `value`, `vc`: the engine's bookkeeping — task ids, the caches
  that make repeated calls reuse a task, scheduling counters — and the values
  and references that tasks pass around.
- `attrs`, `codegen`, `names`, `macro_plans`: what the `value`, `value_trait`,
  `value_impl` and `function` attributes and the trace derive decide before
  they write code.
- `chunk`, `esm_binding`, `emitter`, `typescript`, `reference`, `rebase`,
  `static_asset`, `asset_graph`: chunk code, rewriting imported bindings,
  parser diagnostics as issues, typescript resolution and `tsconfig.json`,
  walks over the asset graph.
- `text`, `ast_dump`: decimal numbers, JSON string literals, joined lists,
  and the tidying of syntax tree prints (through the `regex` crate).

`app/` holds what surrounds the library: reading `syn` syntax trees and JSON
files into the library's types, values of any type (`MagicAny`), the
serialized form of chunk item options, console input and output, and the
loops that drive the library's steps with outside work handed in as
closures (reading a chain of config files, resolving references, serving an
asset of a graph).

`tests/` runs the library on concrete values.
