# macvm

The compilers and the machine model of a small Smalltalk virtual machine, with their behaviour stated
and proved in Verus.

`src/` is the library; every item of it is verified.

- `frontend` reads source text: tokens (`lexer`), the syntax tree (`ast`), which variables a block
  captures (`capture`), and stack-machine code (`codegen`). `flow` proves that whatever a method is
  compiled to keeps the depth of the stack on every way through it and ends in a return. `control`
  models the stack machine and proves which value dissolved control flow leaves.
- `compiler` turns register code into machine code: instruction encodings (`a64`), the assembler and
  its literal pool (`assembler`, `jasm_assembler`), the instructions (`ir`) and their registers
  (`regalloc`), what is known of values (`analysis`) and of slots (`residency`), the lowering of each
  instruction (`emitter`, `lower`, `marshal`), whole methods (`emit`), and the inliner's decisions
  (`inline`, from what `feedback` holds). `machine` models the processor and proves which receivers and
  indices the guards let pass; `operands` proves what small-integer arithmetic computes, on values in
  registers, in slots of the frame and as constants.
- `interpreter` holds the process stack and the activation of blocks.
- `memory` holds reserved address space, the card table and a model of the objects that the
  interpreter reads.
- `codecache` holds the windows in which code is written.
- `bundle`, `oops`, `bytecode` and `text` are what the rest shares.

`tests/` runs the library. `app/` is ordinary Rust around it: files, the environment, the system's
memory, clocks, floating point and the end of the process.

Three things are taken on trust, each behind a declaration with its own comment: `String::push`,
`char::is_uppercase`, and three operations of `smallvec::SmallVec`.
