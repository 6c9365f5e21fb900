# nitrousoxide

A small just-in-time compiler for C/C++ programs compiled to LLVM bitcode: the host
program asks for one of its functions to be compiled, every call to `fib` in it is
inlined, and the result is compiled with cranelift's JIT.

The decisions are made, and verified, in `src/`, on a plain model of compiled functions:

- `ir`: the model (blocks, instructions, values, external functions, global values) and
  what a soundly numbered function is;
- `inline`: inlining of one call, the condition under which it is defined, and the listing
  of call sites; `inline_laws`: what inlining keeps;
- `module`: modules loaded from bitcode, the choice of the function to compile and of the
  calls to inline, and the symbols to declare;
- `syms`: reading `nm` output and choosing the object files whose symbols are read;
- `target`: the state of a compilation target and the shape of calls into compiled code.

`app/` holds the entry points for the host program, the loading of bitcode, the
conversion between cranelift's IR and the model, code generation and the calls to `nm`.
