# ATrader

Paper trading on real market data. Orders execute against a simulated copy of the real order book:
large orders walk the book and pay slippage, and trading moves the price for a while afterwards.

- `src/` is the library: the matching engine and its ledger, venue rules, market data formats,
  alerts, performance, the tools an agent calls and the rules of the dashboard. Every function
  states what it returns, and Verus proves it. The few functions that only call another crate or
  the standard library are the exception: what they state is believed, and their comments say so.
- `tests/` runs the library with the crates it calls.
- `app/` is the node around it: `main`, the database, the network, the capability that is served
  to agents, and what needs floating point.

## How the library is laid out

| module | what it holds |
| --- | --- |
| `decimal`, `time`, `dates`, `text`, `table`, `json`, `record`, `archive` | numbers, instants, texts, maps and formats the rest is built on |
| `domain`, `venue` | instruments, books, tick sizes, lots, fees, calendars |
| `sim`, `broker`, `ledger` | the shadow book, orders and fills, cash and positions |
| `feed`, `candles`, `stats`, `screen`, `subs`, `market` | market data of each venue, candles, rankings, subscriptions |
| `fundamentals`, `fx`, `indicators`, `performance` | filings, exchange rates, indicator names, returns |
| `alerts` | conditions, what fires, how it is delivered, briefings |
| `accounts`, `cli`, `settings`, `store`, `persist`, `tools`, `web` | accounts, the command line, settings, rows, the agent's tools, the dashboard |

Amounts are decimals of at most 96 bits of mantissa. A function whose result a decimal or the
calendar cannot hold says so in its result and never panics.

Laws that relate several functions are public proof functions whose names start with `law_`.
