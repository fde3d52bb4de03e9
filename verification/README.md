# pitty

The verified core of a runner for terminal scenarios. A scenario spawns processes
under a terminal, sends them input, and checks what they write, which files they
leave behind and how they exit. Every decision of a run is made in `src/`, where
Verus proves it to do what its contract says; the system calls are made in `app/`.

## How decisions and calls are kept apart

Nothing in `src/` touches the disk, a process or the clock. Where a decision depends
on them, it is a dialogue: a value says what to ask for next, and the reply gives the
next value.

- A snapshot path is resolved against a table of the kernel's answers (`facts`,
  `resolve`, `workspace`). The resolver decides, or names the question whose answer
  it lacks. What it decides holds in every filesystem that agrees with the table.
- A directory walk, the private writing of a file, the acquiring of a log name, the
  search for one and the writing of a log (`safepath`, `acquire`, `lognames`,
  `logwriter`) go from state and event to the next state.
- A run (`runner`) asks for one action at a time and turns the replies into report
  rows or into the fault that stops it.

## Platforms

Paths are read, joined and written by the rules of the platform that the caller
names: on Windows both `/` and `\` separate, and a drive or a share may stand before
the root. Unix holds the workspace and the base directory of the logs open before a
scenario runs and locks the sidecar of a log while it is written. Windows has neither:
there the logs directory is used by its path, and a sidecar records who owns a log
without keeping a second writer out.

## Layout

| Modules | Subject |
|---------|---------|
| `text`, `digest`, `string_map`, `pair_table` | texts, numbers, digests, tables |
| `mask`, `expand`, `error`, `scenario` | secrets, placeholders, faults, scenarios |
| `path`, `rawpath` | paths as components, and the bytes that denote them |
| `facts`, `resolve`, `workspace` | where snapshot paths lead |
| `safepath` | walks and files that no link can redirect |
| `identity`, `claim`, `acquire`, `lognames`, `logwriter` | which log a run writes, and how |
| `report`, `json`, `runner` | reports, JSON sources, runs |

Functions named `lemma_...` that are public state what holds of the library as a
whole: that no secret reaches a log, that no run takes another's log, that no
snapshot leaves its workspace.

What is believed without proof stands in `text` and `json`: what `String::push`,
`std::str::from_utf8`, `String::from_utf8_lossy` and `serde_json::from_str` do.

`tests/` runs the library against a filesystem and a logs directory held in memory.
`app/` holds the system calls of both platforms, the loops that answer the dialogues,
and the JSON form of reports.
