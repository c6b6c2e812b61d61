# corelink_core

The pure fan-control core of CoreLink: one deterministic tick per fan profile.
It has no I/O and no clock. Times, sensor readings and the duty that a port
runs at are handed in with every tick; what comes back is one outcome (a
command, the fail-safe, or no command) and the faults that go with it.

All of `src/` is verified with Verus.

| module       | what it holds                                                        |
|--------------|----------------------------------------------------------------------|
| `rounding`   | the rounding that defines binary64, on exact integers                |
| `float`      | `Float64`: binary64 arithmetic on integers, proved correctly rounded |
| `order`      | how that arithmetic respects order                                   |
| `accuracy`   | how far its results are from the exact ones, over the reals          |
| `time`       | `Duration`, in whole nanoseconds                                     |
| `text`       | the texts of durations in fault messages                             |
| `source_map` | maps keyed by sensor source, in key order                            |
| `config`     | configuration values, their defaults and their validation            |
| `ema`        | the time-corrected moving average                                    |
| `fold`       | several temperatures into one                                        |
| `curve`      | a duty as a piecewise linear function of temperature                 |
| `pid`        | the controller that holds a temperature                              |
| `slew`       | how far a duty may move in one tick                                  |
| `tripwire`   | which sources call for protection, evaluated once per tick           |
| `profile`    | the tick of one profile                                              |

In `profile`, `model` says what a tick does, `report` what it reports, and
`laws` what holds of every tick, and `isolation` what a profile does not depend
on. In `slew` and `pid`, `exact` says what a tick would be without rounding.

Contracts are stated over views (`EmaView`, `PidView`, `TripwireView`,
`ProfileView`) and open spec functions. Proof functions named `law_...` state
what holds of the library as a whole.

Numbers are binary64 bit for bit, so results are those of machine arithmetic.
The exponential function is the caller's, since its last digit differs from one
platform to the next: contracts hold for whatever it returns.

`tests/` runs the library, `app/` wraps it for callers with `f64` and
`std::time::Duration`.
