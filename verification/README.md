# reality_os

The verified core of the FSOT Reality OS kernel, written in Verus.

`src/` holds the kernel logic with its contracts and proofs:

- `trits` — packing 32 trits into a 64-bit word and back, with the round-trip laws.
- `frames`, `heap`, `memtest` — the bump frame allocator over the usable regions of
  the boot memory map, the bump heap carved from allocated frames, and the boot
  memory self-test around them.
- `sched` — the round-robin domain scheduler with its circular ready queue and
  timer-driven preemption, with round-robin, fairness and preemption-accounting laws.
- `domain` — the per-domain values the kernel logic reads, and the domain table tally.
- `isa`, `fsotb` — the trinary ISA interpreter (its semantics as a step function)
  and the FSOTB wire-format loader.
- `console` — decimal rendering of integers and the VGA text-screen cursor.

`app/` is the bare-metal kernel around it: port I/O, the interrupt table, the PIT
timer, raw memory writes through the physical-memory window, and the
floating-point scalar engine `S = K(T1 + T2 + T3)` with the residual law
`c = m(1 + |S| f)`.

`tests/` exercises the library on concrete values.
