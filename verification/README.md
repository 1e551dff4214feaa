# gatekeeper

A rate-limiting HTTP proxy. The library under `src/` decides: who is kept out, which policy a
request comes under, whether it is within the limit, what a refused requester is told, and what is
passed on to the upstream. Its functions are verified with Verus. The program under `app/` reads the
configuration, listens, and sends.

- `binary64`: floating-point numbers of 64 bits, held by their bits, with correctly rounded
  arithmetic stated over the integers; `binary64::laws` holds what follows from it, and
  `binary64::error` how far it is off.
- `time`: lengths of time and readings of a clock.
- `store`: the buckets, in memory, and their eviction.
- `algorithm`: the token bucket; `algorithm::laws` holds what follows from it, `counting` how it
  counts where all numbers are whole, and `estimates` and `waiting` how it does up to rounding.
- `config`, `notation`, `policy`: the configuration, the notation of lengths of time, and which
  policy applies to a request.
- `identity`, `network`, `uri`, `headers`, `request`: what is read of a request.
- `middleware`: the access lists and the limit; `keeper` puts them together.
- `response`, `json`: what a requester is told.
- `proxy`: what is sent to the upstream.
