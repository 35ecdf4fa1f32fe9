# ivm

A virtual machine for interaction nets, verified with Verus.

- `src/runtime.rs` and `src/runtime/`: nets, the interactions that reduce them, and the
  ways of normalizing a net (to its normal form, breadth-first, or with a budget).
  `net.rs` says what each operation does to a net.
- `src/program.rs`: programs, that is named nets, and how they are compiled to grafts.
- `src/host.rs` and `src/host/`: what is registered with a host, programs that are loaded
  while a net runs, and the runner that takes a program from its start to its end.
- `src/laws.rs`: what holds of the machine as a whole, such as that a stopped normalization
  can be resumed, that hooks cannot change a net, and that no end of a wire is used twice.
- `app/`: ordinary Rust that drives a run. It reads the texts that a net asks to be
  parsed, and carries out the calls that only the host can carry out.
- `tests/`: the machine on concrete nets.

A net may be reduced for ever. `Runtime::normalize` therefore asks that its net has a
normal form; `Runtime::normalize_for` reduces any net, as far as its budget goes.

A call that only the host can carry out interrupts a normalization right behind the
interaction that made it. `normalize_until_call` and its breadth-first and budgeted
siblings hand back what is needed to go on: the reading of the clock, and the pairs that
are left of the round. Once the host has linked the outputs of the call, they go on from
there as if nothing had come between.
