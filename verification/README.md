# nim-proxy

A rate-limit-aware proxy in front of an OpenAI-compatible upstream. Requests of
all clients go through one queue; each upstream key is a lane that never sends
faster than its rate; trouble that passes by itself (429, 5xx, a lost
connection) is waited out, with comment lines that keep a streaming client's
connection open meanwhile.

## Layout

- `src/` is the library, written in Verus. It holds every decision as a function
  with a contract, and the laws that relate them as public proof functions
  (`law_...`). It opens no connection and no file.
- `app/` is the process around it: the HTTP server, the upstream client, the
  files, the metrics registry. It asks the library what to do and tells it what
  came of it.
- `tests/` runs the library.

## The library

| Module | What it decides |
|---|---|
| `pool` | which lane serves next, and how long to wait if none can |
| `dispatch` | whose turn it is, and when waiting is in vain |
| `governor` | how many requests a model under pressure gets |
| `clients`, `auth`, `sessions`, `password` | who may use the API, and who may see the dashboard |
| `request` | what a request asks for, where it goes, and what is sent for it |
| `proxy`, `stream` | what becomes of a request after each attempt |
| `sse`, `usage`, `quality` | what an answer shows on its way past |
| `history` | which snapshots are kept, written and shown |
| `config`, `settings`, `startup` | what the proxy runs with, and when it refuses to |
| `errors`, `labels`, `pages` | what clients and the metrics are told |

What comes from outside crates (JSON, HMAC-SHA-256, constant-time comparison,
randomness) and from the clock stands behind small trusted functions in `json`,
`crypto`, `utf8`, `text` and `time`, each with a comment that says what is taken
on trust.

## What is proved

Among others: no key is ever used faster than its rate, across pool rebuilds
too; slots are granted strictly in arrival order, and one that cannot be
delivered leaves no trace; the wait that a caller is told is exact, and a caller
is turned away at once if it is too long; every turn of a conversation prefers
the lane of the first; a request's body reaches the upstream untouched unless a
usage report is asked for, and then the untouched body is fallen back on at most
once; a session opens the dashboard until it expires and not after, and a user's
session ends with the user; the process does not start open unless it is told
to; over any run of snapshots, what was written is read back; an invalid config
store is never written, and a failed write of it applies nothing.
