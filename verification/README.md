# traffic_stats

Per-user traffic accounting for an xray and a hysteria server. At regular intervals, and whenever a
query comes in, the counters of both servers are fetched, told apart by user and written to an
SQLite database. A query is answered with the records since a given time and with each user's sum
over the current month.

- `src/` is the library, verified with Verus. It performs no I/O.
  - `users`, `json`: the users' document, and the names by which the two servers know a user.
  - `xray`, `hysteria`, `samples`: requests to the servers, and reading what they report.
  - `lark`, `calendar`: whether a refresh is to run, and in which month.
  - `refresh`: a refresh as a state machine that names one database statement at a time.
  - `worker`: the loop that refreshes, answers requests and sleeps.
  - `report`: the answer to a query.
  - `store`, `ledger`: a model of the database, and the laws of what it holds after refreshes.
  - `text`, `casts`, `listing`: strings, integer casts and ordered maps.
- `app/` is the service: the command line, the HTTP server, the clients and the database.
- `tests/` holds the tests of the library.

The database has four tables: `Record (tid, time, tx, rx)`, `Last (tid, time)`, `Month (uid, sum)`
and `Meta (id, time)`; `tid`, `uid` and `id` are the keys of the last three.
