# rustrig

A rig for playing the electric guitar through a computer: effects that work on a
live signal block by block, the duplex streams that they run in, and the controls
in front of them.

`src/` is the library, verified with Verus. Samples and parameters are the bit
patterns of single-precision numbers. The library decides what is done with them,
and that is proved: comparisons and clamping down to the bit, the state machines
(hysteresis of the noise gate, the beats of the metronome, the steps of opening a
stream), delay lines and rings, framing and formats of samples, the order of the
chain. The arithmetic is left to an implementation of `arith::Arith`; contracts say
which operation was applied to which numbers, in which order.

- `bits`, `arith`, `block`, `line`, `param`, `processor`: numbers, runs over a
  block, delay lines, parameters shared between threads, processing units and
  chains of them
- `gate`, `comp`, `drive`, `cab`, `nam`, `delay`, `reverb`, `tuner`, `metro`: the
  effects
- `backend`, `devices`, `ring`, `wasapi`, `asio`, `rt`: streams
- `wav`, `panel`, `rig`, `probe`: impulse responses, the front panel, the rig
  behind it, the latency probe

A unit states what it does in the spec functions of `processor::AudioProcessor`.
The parameters are words that another thread may write at any time, so a unit has
`process_with`, which takes their values and is exact about them, and `process`,
which reads the parameters first. That a value came out of a word or went into it is
stated; what a word holds is not.

What other crates compute is declared in `ring` (the queue of `rtrb`), `nam`
(models of `nam-rs`), `wav` (files read by `hound`) and `probe` (lower case of
`std`). These are the only places where a contract is believed rather than proved.

`tests/` runs the library on real numbers. `app/` is the program: the window, the
calls into the system, and the arithmetic of the machine. With `probe` as its first
argument it runs the latency probe instead of the window.
