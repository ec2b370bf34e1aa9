# qutub_transpiler

A quantum circuit compiler whose passes are verified with Verus. It reads
OPENQASM 2 or 3, simplifies the circuit, decomposes it into native rotations,
lowers it to the native gates of a hardware backend, and schedules the result as
pulses. Around that path stand circuit diagrams, export in IBM's basis gates,
fidelity and fault-tolerance estimates, noise and readout errors, and small
error-correcting codes with a matching decoder.

## Layout

- `src/` is the library, proved by Verus. Two items are trusted instead:
  `String::push` in `text`, and the call in `fidelity` that fetches the figures
  of one device from `sirraya_qutub`.
  - Numbers and text: `binary64`, `bignat`, `number`, `display`, `numerals`,
    `text`, `angle`.
  - Circuits: `ir`, `qasm`, `emit`, `read_back`, `diagram`, `histogram`.
  - Passes: `ir_optimize`, `native`, `optimize`, `kak`, `backend`, `rewrite`,
    `placement`.
  - Devices: `coupling`, `pulse`, `ibm_export`, `fidelity`, `noise`, `readout`,
    `resource_estimate`.
  - Error correction: `qec`.
- `tests/` runs the compiled library.
- `app/` holds what needs floating-point numerics or a simulated quantum
  register: Euler angles and Weyl coordinates of matrices, running circuits,
  and two programs that go through the whole pipeline.

## Numbers

An angle is a `Binary64`, the bit pattern of an IEEE double. The library adds,
multiplies, divides, rounds, prints and parses such numbers exactly as the
standard asks, and proves that it does. What needs a transcendental function
comes in through a function argument: the contracts say what is built from
whatever that function gives back.

## What is proved of the passes

The optimizers state their result exactly, and a law beside each says that the
result is reached from the input by the local rules of that pass alone, such as
exchanging neighbors that commute, merging rotations about one axis and
dropping what does nothing. Measurements and conditioned gates are neither
dropped nor reordered.
