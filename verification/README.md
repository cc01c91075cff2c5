# EmScript

EmScript is an experimental language. This library holds its mid-level
representation, a control-flow graph, and what turns it into running code:

* `dag_program` is the representation itself: types and their layouts, functions
  made of blocks, and whole programs. `human_format` builds a program from parsed
  text, `cf_build` and `compile` turn it into Cranelift code, `interp` steps
  through it. `code` says what that code is, `codewf` and `frames` what holds of
  all of it, `wellformed` what holds of all programs. `gc_refs` and `roots` say
  where references into managed memory lie, in values and in frames.
* `runtime` is what compiled programs run under. It knows the types and functions
  of a program and the frames on the stack, and it finds out which values of
  managed memory can still be reached.
* `rich_ast` holds the syntax tree of the language above.
* `slots`, `clif` and `text` are the library's boundary to `slotmap`, Cranelift
  and the standard library. What is believed of those without proof is stated
  there, next to each call.

The code is written in Verus. The contracts speak of models: a program is a
sequence of functions, a runtime is a set of maps, and a Cranelift function is
the list of instructions in each of its blocks. The functions whose names begin
with `law_` state what holds across several operations.

`app` is a program around the library. It owns the process-wide runtime, reads
and frees memory, and runs compiled code.
