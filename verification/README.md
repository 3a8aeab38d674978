# rtorch

A compute framework's verified core: the `.rtw` container format and its
model/memory payloads, the `.rtw` whitelist and trust gate, tensor shapes and
broadcasting, the kernel registry and GPU dispatch bookkeeping, the traversal
order of reverse-mode autodiff, and the decisions of the `rtorch` command line.

- `src/` is the library, written and proved with Verus. Every public function
  carries a `requires`/`ensures` contract; the laws that relate several
  functions (decoding what was encoded, a trusted path is asked for at most
  once, a lookup finds what was registered, ...) are public proof functions.
- `app/` is the `rtorch` program around it: file and process I/O, the trust
  prompt, the Vulkan engine and formula DLL bindings, and the floating-point
  tensor, autograd and GPU tensor code.
- `tests/` exercises the library on concrete values.
