# orderly

A limit order book with price-time priority: orders are matched against the best price first and,
at one price, against the oldest order first.

- `src/` is the library. `engine` takes orders and cancellations, `book` holds what rests.
  `model`, `matching` and `queue` say over sequences of resting orders what each operation does;
  `upkeep` shows that every operation keeps the invariant. `laws` and `feed` state what holds of
  the engine as a whole: priority, conservation of quantity, an uncrossed book, and levels and
  changes that agree. `service`, `api`, `session`, `config` and `load` hold the decisions of the
  server and of the load test.
- `tests/` runs the library on concrete orders.
- `app/` is what stands around the library: the routes and the engine task of a server (HTTP and
  WebSocket), for a program to start, and the load test, which is the program that `main` runs.

The only thing taken on trust is the machine's clock (`clock`), of which nothing is claimed: a
trade carries the time of a reading of the clock, whatever it showed.
