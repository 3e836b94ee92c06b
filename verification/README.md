# mailiner_proxy

A proxy that forwards WebSocket connections to the mail server named in the
request, for mail clients that run in a browser. The rules of the proxy are a
library written in Verus: what each function returns or changes is stated in its
contract and proved.

    ws://<proxy-host>[:<proxy-port>]/proxy?remote=<host>:<port>&token=<token>

## Layout

- `src/` is the verified library.
  - `text`, `ip`, `names`, `time`: text, addresses, sets of names and spans of time.
  - `dest`: which destination a client may name, and which addresses may be dialed.
  - `limits`: caps on connections, attempts, destinations and bytes, per client
    network and in all. `history` states what those caps mean over any run.
  - `proto`, `probe`: the first bytes of a session (a TLS ClientHello or a greeting).
  - `config`, `startup`: the settings, how variables set them, and which settings
    a public deployment refuses to start with.
  - `server`, `auth`, `admission`: how one request is judged.
  - `connection`: one session as a state machine from event to action.
  - `metrics`: the labels under which things are counted.
- `app/` is the program around it: sockets, HTTP, logging, the registry of metrics.
- `tests/` runs the library on concrete values.

## What is taken on trust

Token parsing (`rusty_paseto`), dates (`chrono`), header maps (`axum`), UTF-8
decoding and the clock (`std`) are called through small functions marked
`external_body`. The comment above each says what is claimed of the call. Nothing
is claimed of what a clock reads.

## What the laws say

Each module ends with public proof functions whose names start with `law_`. Among
them: under the default policy only names and mail ports are let through, an address
that is dialed is one the policy permits, a token opens only the destination it
names, every operation keeps the caps, and in no window are more attempts,
destinations or bytes let through for one client network than configured.
