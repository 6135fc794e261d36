# slack_channel

A Slack channel for an assistant: it listens to messages over Socket Mode or by
polling, decides which of them are heard, and sends replies and growing drafts.

- `src/` is the library. Every decision of the channel stands there as a function
  with a contract that Verus proves:
  - `channel`, `tables`, `messages`: configuration, allowlist, channel scope,
    group policy, display name cache
  - `inbound`, `sockets`, `polling`: which messages are heard, from websocket
    envelopes and from pages of history
  - `sessions`, `rounds`: listening as a whole, from one event to the next action
  - `api`, `users`, `directory`, `retry`: replies of the Web API, display names,
    channel discovery, rate limits
  - `drafts`: messages to send, and drafts that are edited
  - `mrkdwn`: conversion of Markdown to Slack's markup
  - `json`, `text`, `clock`: the values that the rest is made of
  - `laws`, `runs`: what holds of the whole, and of all that happens while the
    channel listens
  - `mrkdwn::laws`, `mrkdwn::constructs`, `mrkdwn::wrapping`, `mrkdwn::code`,
    `mrkdwn::messages`: what holds of the conversion; `mrkdwn::ticks` follows the
    backticks of a line through it
  - `outside`: every call to code outside of the library, with the contract that
    is relied on
- `app/` connects the library to the network: HTTP requests, the websocket and
  the loops around them.
- `tests/` runs the library.
