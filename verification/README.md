# Folio

The system of record for the markdown that agents read and write: documents,
prompts, task lists and skills. Files on disk stay plain markdown; Folio keeps
the history, the queue of proposals and the comment threads beside them.

`src/` is the core, a Verus library. What it decides is stated in contracts and
proved, down to the calls it makes into other crates. Those calls are trusted:
each stands behind a small function marked `external_body`, whose comment says
what is claimed of it.

| Crate | What is taken from it |
|---|---|
| `similar` | which lines and words two texts differ in, and their grouping with context |
| `sha2` | the hash of a text |
| `chrono` | the clock, and dates as text |
| `rand` | random numbers for identifiers |
| `globset`, `regex` | matching paths and lines |
| `serde_json`, `serde_yaml_ng` | quoting a text, reading frontmatter |
| `std` | lower-case forms, which characters are letters or digits, bytes read as text |

| Module | What it holds |
|---|---|
| `text`, `util`, `order`, `table` | texts, lines, paths, hashes, sorting, lookups |
| `json`, `error`, `config`, `event`, `disk` | the values that everything else speaks of |
| `store` | the store: settings, blobs by their hash, clients, rate limits |
| `corpus` | roots, write policies, artifact types, the sandbox around paths |
| `version` | versions, timelines, restoring, exporting |
| `diff` | prose-aware comparison, applying hunks, merging, patches |
| `proposal` | proposals: queueing, accepting, rejecting, rebasing |
| `comment` | anchored threads |
| `artifact` | frontmatter, prompts, task lists, skills |
| `search`, `watch`, `instrumentation` | searching, noticing changes, counting usage |
| `api` | every operation by name, and what comes of it |
| `mcp`, `ipc` | the tools that agents call, and the socket between bridge and app |

The core does no input or output. A store is a value, the files are a value, and
an operation takes both and leaves both as its contract says. What has to be
looked up beforehand (what is at a path, what a walk came across, what the clock
says) is handed in.

`app/` is the shell around it: the database, the file system, the watcher, the
socket, the MCP server and the command line. The window is built with
`--cfg desktop`, where Tauri is at hand.

`tests/` runs the core on concrete values.
