# openvaf

The verified core of the OpenVAF middle-end: the MIR data structures and the analyses that
work on them, written in Verus with their contracts proved.

- `src/entities.rs`, `src/instructions.rs`: entity numbers, opcodes, instruction data and phi nodes.
- `src/layout.rs`: the doubly linked block and instruction order of a function.
- `src/values.rs`: the value table with use lists, interned constants, aliases and their
  stripping, operand detachment, and phi edge insertion and removal.
- `src/function.rs`: data flow graph and function, block splitting and phi edge updates.
- `src/cfg.rs`, `src/dominators.rs`, `src/domtree.rs`: control flow graph, DFS postorder,
  (post-)dominator trees and dominance frontiers.
- `src/dead_code_aggressive.rs`: aggressive dead code elimination: the choice of roots, the
  liveness analysis, and the removal of what stays dead.
- `src/split_tainted.rs`: taint propagation from a set of source values, directly (uses and
  the phis where tainted branches merge) or with the regions that tainted branches control.
- `src/derivatives.rs`, `src/opt.rs`, `src/builder.rs`, `src/codegen.rs`, `src/llvm.rs`:
  derivative interning, the constant lattice, SSA variable definitions, code generation
  descriptors and LLVM version handling.
- `src/cursor.rs`: the character cursor of the lexer (peeking, consuming, token lengths in
  bytes, and the marker of a `define`).
- `src/fmt_parser.rs`, `src/validation.rs`: parsing of real format specifiers and checks of
  unique attributes.
- `src/simplify.rs`: simplification of phis and unary instructions (inverse pairs, square roots,
  logarithms, rounding), reading operands through a value mapping and taking constant
  folding from the caller.
- `src/node_validation.rs`, `src/limit_check.rs`, `src/overload.rs`: the checks of net and
  port declarations, of `$limit` calls, and overload resolution of calls, over plain
  descriptions of the types and declarations involved.
- `src/types.rs`: types, type requirements and their relations (satisfaction, casts), and
  the tables that overload resolution works on, built from the base relations between types.
- `src/builtin_validation.rs`: the checks of calls of builtin functions (context, nature
  access, port and branch arguments, simulator parameters, noise tables, constant
  arguments).

Not held here:

- the per-instruction tables of the data flow graph (results and operand uses), and with
  them creating, rewriting and removing instructions, attaching operands and listing the
  uses of an instruction (an operand's uses are found through the use table instead);
- the textual writer of functions and the SSA variable reads (`use_var`); the removal step of
  aggressive dead code elimination takes dead instructions out of the layout but does not
  clear their entries in the instruction table;
- constant propagation, global value numbering and instruction combining;
- floating-point constant folding, which callers of the simplifier perform;
- diagnostic rendering and the expression-level type inference, which rest on the syntax
  tree and the database of the front end; the base relations between types (which type
  converts to which, which is a condition) and the classification of builtins come in as
  tables.

`app/` holds the thin program layer that reads the build environment.
