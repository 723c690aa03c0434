# spore_vm

The Spore language, verified with Verus: a tokenizer, a parser into syntax trees, a compiler
from syntax trees to an intermediate representation and from there to bytecode, the values of
the language and the memory they refer to (stores of strings, boxes, lists, structs, functions
and custom values, with a mark-and-sweep garbage collector), the virtual machine that loads
bytecode into memory and runs it one instruction at a time, the text of a value, equality of
values, the native functions on strings, boxes, lists and structs, and the smaller parts a
machine is built from (a symbol interner, the set of values kept reachable, source contexts
for errors).

- `src/` is the verified library. Each public function states what it returns in terms of
  specification functions over sequences of characters, bytes, tokens, nodes and objects; the
  machine's step is stated as a function from state to next state (`spec_next`). The laws that
  span several functions are public proof functions (for example: every object the roots reach
  survives a collection and nothing else does; every compiled jump stays inside its function;
  a global read back after it is defined gives the value defined; a return undoes the call it
  ends; splitting a string and joining the parts gives it back).
- Collections: where Spore allocates in an arena (`bumpalo`), the library uses `Vec`, which
  Verus specifies; the hash maps and sets (global values, interned symbols, values kept
  reachable, duplicate detection) are vectors with their invariant stated and proved (no key
  twice, first-set order kept), since a hash map keyed by symbols or strings gives a proof
  nothing to work with.
- `tests/` runs the library on concrete inputs; to run programs, a test plays the host that
  answers the machine's calls of native functions.
- `app/` holds what the library leaves to its host: the loop that runs the machine and makes its
  native calls (numbers, which are floats in part, and the system functions), error types that
  display themselves, debuggers that print, float literals and the writing of floats and custom
  values, values behind locks, and a terminal loop that evaluates what is typed.
