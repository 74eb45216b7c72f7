# Disk Prune

A disk analyzer and safe cleanup assistant for Ubuntu whose decisions are
verified with [Verus](https://github.com/verus-lang/verus). It shows where the
space goes, says what can be had back and by which exact command, and removes
nothing before a review is confirmed.

## Layout

- `src/` is the library. Everything that decides something is here, with a
  contract that Verus checks: which paths may be removed, what each cleanup rule
  proposes, how a tree is measured and its hard links counted, what a key or a
  click does, what a confirmed review runs.
  - `path`, `text`, `decimal`, `names`, `order`, `util`: paths as bytes, texts,
    numbers, version order, stable sorting, shell quoting.
  - `scan`, `plant`, `links`, `scanner`, `usage`: one directory's entries, the
    arena tree, hard links, disk usage.
  - `blocks`, `listing`, `measured`: what holds of a whole scan. Every directory
    is its own blocks and its children, each node is found at its path, and the
    total is what a walk of the same directories comes to.
  - `rules`: findings, the report, and the rules themselves (packages, kernels,
    snaps, logs, Docker, browsers, tools, projects and the rest of the home).
  - `cleanup`, `job`: the guards on removal, and the plan and log of a cleanup.
  - `nav`, `marks`, `rows`, `screen`, `window`, `panels`, `large`, `report`,
    `summary`, `about`, `colors`, `classify`, `engine`: the state machines of the
    terminal UI and the window, and the texts they show.
- `tests/` runs the library on concrete values.
- `app/` is the program around it: reading the system, threads, drawing,
  running the commands. It hands the library what it read and does what the
  library answers.

Functions named `law_…` state what holds across the library, such as that no key
runs a cleanup, that marks are never nested, that a kept kernel is never listed,
that only cache folders of a browser's profiles are emptied, that a removal which
goes ahead has seen one device only, or that merging a report twice adds nothing.

What the proofs rest on besides Verus: the wrappers around `bytesize`,
`serde_json` and a few conversions of the standard library, each marked
`external_body` and documented where it stands.

## Credits

Inspired by [disktree](https://github.com/tobi/disktree) by Tobi Lütke.
