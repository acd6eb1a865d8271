# classagent

Records lessons: adapters (a microphone, the screen, a whiteboard) send events as lines of JSON, the
client takes them down, and a lesson is folded into one document with a time line, figures and the
health of every source. A server takes such documents in, and a page shows them.

`src/` is the logic, verified with Verus. Every function states what it gives for what it takes, and
the public proof functions state what holds of several of them together.

| modules | what they hold |
| --- | --- |
| `text`, `double`, `json`, `fold`, `table` | text, doubles by their bits, documents, sums, tables |
| `kinds`, `schema`, `protocol` | events, declarations and lines |
| `store`, `supervisor`, `client`, `opts` | taking events down, adapters and their restarts, the client |
| `track`, `health`, `timeline`, `readable`, `digest` | folding a lesson, and the page of it |
| `serve`, `board`, `server`, `http` | what is asked and answered over HTTP |
| `vad`, `wav`, `audio`, `audiofile` | cutting sound into turns, files of sound |
| `gray`, `phash`, `pngio`, `capture`, `screen` | finding changes on the screen, pictures |
| `fake` | a lesson that nobody gives |

What is not proved is what `serde_json`, `png` and a few functions of `std` do; the doc comment of
each such item says what is taken for granted.

`app/` is the programs around it: processes, files, sockets, devices, and what is reckoned in
floating point. `tests/` runs the library.
