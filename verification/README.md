# quota-throttle

Chooses, request by request, which of several quota-limited API channels serves an LLM
conversation, and streams the traffic through a reverse proxy.

- A request goes to the pinned channel, else to the one that holds the conversation's prompt cache,
  else to the one with the best score. Channels that just answered 429 are a last resort.
- A conversation is known by a fingerprint of its head: model, system prompt, tools and first user
  message, without cache breakpoints.

`src/` is the library, verified with Verus: the fingerprint (`fingerprint`, `json`, `text`), the
router's memory (`state`, `clock`, `history`), the choice (`choice`, `view`, `status`, `double`) and what the
proxy decides (`proxy`). What holds across calls is proved in the `law_` functions. `app/` is
ordinary Rust around it: sockets, the shared lock and the floating-point score formula.
