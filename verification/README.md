# responses_api_proxy

A proxy for the Responses API in front of a local app-server, with a verified core.

The library in `src/` holds the rules: which request starts next and which waits, what is
recorded before a request is sent, how a conversation gets its thread back, how much of an
account's quota is left, which headers pass, how metadata is rewritten. Each function states
its result in its contract, over the models of the types it works on, and Verus proves it.
What holds of several functions together stands beside them as public proof functions whose
names begin with `law_`.

- `scheduler`, `admission`, `lifecycle`, `journal`, `throttle`, `signals`: the queue.
- `conversations`, `continuation`, `continuation_index`, `identity`: durable conversations.
- `quota`, `usage`, `accounts`, `rotation`, `login`, `admin`: accounts and their quotas.
- `raw_headers`, `header_map`, `raw_response`, `rpc`, `models`: the wire.
- `affinity`, `rewrite`, `turn_metadata`, `profiles`: request metadata.
- `queue_http`, `startup`, `forward`, `auth`, `capture`, `metrics`, `header`, `rejection`:
  the HTTP side.
- `json`, `table`, `digest`, `text`, `clock`: what the rest is made of.

Instants and durations are counts of nanoseconds, and the clocks are read outside the library.
Calls into other crates stand behind small functions marked `external_body`, whose doc comments
say what is taken for granted of each.

`app/` is the process around it: arguments, sockets, files and threads. `tests/` runs the
library on concrete values.
