# local-runtime

A thread-local async runtime: it polls futures on the current thread, and suspends the thread
until a future is ready to be polled.

`src/` is the library `local_runtime`, written in Verus. It holds what the runtime decides, as plain
state and plain values, and the proofs that it decides rightly:

- `executor`, `task`, `wake_queue`: which task is polled next, how tasks are awoken, cancelled and
  waited for
- `join`, `merge`, `waker`: which of several futures or streams is polled next, and what comes out
- `reactor`, `time`, `id`: which wakers are due when an event or a timer is
- `poller`: what is handed to `poll`, and how its answer is read
- `io`: what becomes of an I/O operation that would block

The proof functions whose names start with `law_` state what holds across several calls.

`app/` is the runtime around the library, in ordinary Rust: it polls the futures, calls the wakers
and talks to the operating system. `tests/` runs the library, most of it on a simulated clock.
