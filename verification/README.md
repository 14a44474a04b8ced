# tick_to_trade

A tick-to-trade pipeline whose decisions are verified with Verus.

```text
UDP ticks -> [arbitrate + parse + book] -ring-> [strategy] -ring-> [gateway] -> TCP orders
```

`src/` is the library: every function has a contract, and Verus proves it.

| Module | What it does | What is proved of it |
|---|---|---|
| `feed` | ITCH, FIX and JSON parsers, MoldUDP64 arbitration, traffic generators | each parser returns exactly what its format says of the bytes; every event is about a symbol of the table; a stream split anywhere reads as it does whole, and one cut short reads up to its last whole message; generated streams read back as what was meant; a generated FIX message, alone in its buffer, yields no event with any one byte changed; whatever two lossy lines bring, the sequences delivered leave no hole and never overlap; and where every packet that has to wait carries one message, the payloads delivered are those that were sent, each once, in order |
| `book` | price ladders, order tables, books | a ladder is a map of prices under a moving window; a price off its grid is counted and changes nothing else; books on ladders agree with books on standard collections as long as nothing is evicted; a level is the total of its orders |
| `pipeline` | feed stage, strategy, order session, gateway, probes | every probe received is delivered and answered with exactly one order; a session numbers its orders without a hole and a resend replays what was sent; split acknowledgements are read whole |
| `spsc` | the ring between two threads | the two sides never reach the same slot; values cross in order however the sides' moves alternate, and none is left behind |

`app/` runs it: sockets, threads, clocks, core pinning and the shared memory of
the rings. `tick_to_trade engine` is the system, `harness` its counterparty and
stopwatch, and `rxlat` prices the receive disciplines.

`tests/` runs the library on concrete traffic.
