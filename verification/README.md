# Neptune

A package manager for [Nelua](https://nelua.io). The program is called `npt`:
declare dependencies in `neptune.toml`, run `npt install`, and get on with
writing code.

| Command | What it does |
|---------|--------------|
| `npt init` | Starts a `neptune.toml` in the current directory |
| `npt install` | Resolves and installs all dependencies |
| `npt install --frozen` | Installs without changing the lockfile |
| `npt install --force` | Resolves from scratch, whatever the lockfile says |
| `npt tree` | Prints the dependency tree |
| `npt run` | Runs a command with the installed modules on its path |
| `npt doctor` | Checks that the tools a project needs are there |

## Layout

`src/` is the library, proved in Verus:

- `text`, `sort`, `graph`, `order`: strings by bytes, stable sorting, which
  packages can be built and in which order.
- `manifest`, `version`, `lockfile`: `neptune.toml` and `neptune.lock`, and when
  they are refused.
- `resolver`, `resolution`, `demands`: what dependencies turn out to be, the
  course of resolution, conflicts over sources and versions.
- `util`, `walk`: content hashes and the walk through a directory that they are
  made of.
- `install`, `packages`, `emit`, `paths`, `fs`, `git`: what an installation does.
- `tree`, `doctor`: what is printed.

Functions whose names begin with `law_` state what holds of several functions
together.

`app/` is the program around the library: the command line, files, Git and the
formats of the two files. `tests/` runs the library.

Where resolution, a walk or Git needs something from outside, a value of the
library says what is to be done next, the program does it and hands back how it
went.
