# codeowners

Who owns a file, and whether the ownership that a project declares is sound.

Ownership is declared in many places: an annotation in the first line of a file, a `.codeowner`
file in a directory, the manifest of a package, the globs and gems that a team file lists. This
library resolves these declarations, reports files with no owner or several owners and references
to teams that do not exist, and tells how the CODEOWNERS file has to change.

## Layout

- `src/` is the library, written in Verus. Every function states what it returns, and the proof
  functions named `law_...` state what holds across functions.
  - `path`, `path_utils`: paths as text, their components, and their place in a project.
  - `text`, `order`: texts, and stable sorting.
  - `project`, `config`, `cache`, `project_file_builder`: what a project consists of, and the
    annotations in its files.
  - `ownership`: rules and claims (`mapper`, `file_owner_finder`), judging a project (`validator`),
    looking up a single file (`file_owner_resolver`), the shared teams (`team_cache`), and lookups
    in the CODEOWNERS file (`codeowners_query`).
  - `runner`: what a run does and what it has to say.
  - `outside`: the calls into other crates, with what is believed of them.
- `app/` reads and writes the disk around the library.
- `tests/` runs the library on examples.

The library itself does no I/O. What it has to know of the disk is handed to it in values such as
`DiskView`, `RunFacts` and `FileFacts`.
