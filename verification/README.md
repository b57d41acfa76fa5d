# cex_v1

A queue-driven spot-market exchange engine whose core is verified with Verus.

The engine keeps, in memory, every user's balances, one order book per market
(`SOL` and `BTC`, priced in `INR`), a record of every order and a log of every
fill. It handles requests that initialise a user's balance and create orders;
limit orders are matched in price-time priority, settled against both users'
balances and recorded, and what is left of them rests in the book with its
cost locked.

Whatever its side, what is left of a limit order rests among the bids of
its market and locks `price * remaining` of the user's `INR`: a sell order
does not rest among the asks, and its unsold quantity is not locked. The
contract of `Engine::handle` (`placed` in `services/engine.rs`) states this
as the engine does it.

## Layout

- `src/` — the verified library.
  - `table.rs`: a map from string keys to values, viewed as a `Map`, in
    which no key occurs twice (`Table::wf`). It holds the accounts, the
    wallets, the books and the order records. It stands where a
    `HashMap<String, _>` would: vstd specifies `HashMap` only for key types
    whose hashing and equality it knows to behave (`obeys_key_model`), which
    it does not state for `String`, and its string-keyed map cannot lend a
    value out to be changed in place. `Table::get_mut` and
    `Table::get_mut_or_insert` do, as `HashMap::get_mut` and
    `entry(..).or_insert_with(..)` do.
  - `models/store.rs`: the data types and the store; amounts are integers
    (`PRICE_SCALE` price units per `INR`, `QTY_SCALE` quantity units per
    asset unit, both 10000, and balances of `INR` in units of
    `price * qty`). The service reads prices and quantities as decimals and
    refuses one that is finer than these units or too large for an `i64`,
    rather than changing it.
  - `models/book.rs`: matching, with its specification (`match_side`) and
    laws (price priority, conservation of quantity, no crossing left, only
    a partly filled maker stays in its level, tidy levels, and
    `law_match_whole`, what a whole match does to the book side).
  - `models/balances.rs`: settling fills (`apply_all`, `apply_steps`) and
    its laws: a trade, a list of fills and the trades of a match keep what
    all users hold of each currency (`total_held`), and the taker's
    balances change by the trades' total cost and quantity.
  - `models/records.rs`: recording a match in the order records and the
    fill log, and the law that the records keep following the log
    (`follows_log`).
  - `services/engine.rs`: request handling (`Engine::handle`), the check that
    a request keeps every amount in range (`Engine::can_handle`,
    `Engine::handle_checked`), and the laws of a request: the store stays
    funded, its books stay tidy, every currency's total is kept, every
    order record's filled quantity stays what its fills add up to, and the
    taker's balances change as its trades and its lock say.
  - `config.rs`, `requests.rs`: configuration values and request types.
  - `stamps.rs`: random ids (`uuid`) and the clock (`chrono`).
- `app/` — the service around it: environment, Redis queues, JSON.
- `tests/` — tests of the library.

## Running

```sh
REDIS_URL=redis://127.0.0.1/
REDIS_REQUEST_QUEUE=exchange-requests
REDIS_BRPOP_TIMEOUT_SECONDS=5
```

`REDIS_BRPOP_TIMEOUT_SECONDS` is optional and defaults to `5`.
