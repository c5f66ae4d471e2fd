# ForceFree

Finds, ranks and reclaims the disk space that development projects eat: what a build
or a package manager can make again, sorted by what making it again costs.

- Every reclaimable directory is one row on a balance. Space that would come back
  grows left of the spine, time to rebuild grows right, and a rule is drawn where
  reclaiming stops being worth the wait.
- A repository with uncommitted or unpushed work is never touched, and neither is
  one whose state cannot be read.
- A dry run is the default. Deleting takes a flag and a typed `yes`, after the list
  has been printed.

## Layout

`src/` is the library. All that is decided is decided there, and Verus proves that
each function does what its contract says.

| Module | What it is about |
|---|---|
| `text`, `paths` | characters, words and paths as plain text |
| `binary64` | double precision numbers, computed on integers |
| `chart`, `balance` | the geometry of the balance chart, and that rounding never tips it |
| `detector`, `markers` | ecosystems as data, and recognising projects by their entries |
| `git` | whether work is backed up |
| `links`, `sizing` | what a directory holds, and what deleting it would give back |
| `roots`, `scan` | a scan, step by step |
| `discovery` | what a walk over a whole tree comes across |
| `ranking`, `sorting`, `deals` | which rows there are and in what order |
| `figures`, `prose`, `palette`, `report` | the printed report |
| `reclaim`, `deletion` | the plan, and carrying it out step by step |
| `tui` | the interactive interface: state, screen and input |
| `cli` | what else is said on the command line |

A scan, a question to git and a deletion are state machines: the library says what
to do next and is told what came of it. What holds across functions, such as that
only backed-up work is ever deleted, stands beside them as public proof functions.

`app/` is the program around it: arguments, walking the disk, running git, drawing
on the terminal. It reads one file `detectors/<id>.toml` for each ecosystem, from
beside the program or from the current directory.

`tests/` runs the library on directories and repositories that exist only in memory.
