# phoserv

A server for photo libraries: uploads, tags, boolean search, galleries, imports
from disk and downloader scripts.

- `src/` is the library, written and proved in Verus: what is decided and
  computed. Each function states what it returns; the laws that relate functions
  are public proof functions whose names start with `law_`.
- `app/` is the program around it: HTTP routes, the SQLite database, files and
  child processes.
- `tests/` runs the library on concrete values.

| Modules | What they hold |
| --- | --- |
| `search`, `sql` | the query language and the SQL conditions it becomes |
| `tags`, `gallery_tags`, `tagtree`, `tagwalk` | tag paths, walks along them, trees |
| `gallery`, `listing` | galleries, their pages and the order of pages |
| `ingest`, `media`, `storage`, `ids` | what a file is, where it is kept, its row |
| `rules`, `pattern`, `textset` | tags derived from file paths |
| `routes` | requests, answers, pages, imports and jobs |
| `auth`, `config`, `error`, `models` | tokens, configuration, errors, rows |
| `text`, `paths`, `strmap` | texts, file paths, maps keyed by text |

Results of other crates that have no short description (digests, MIME guesses,
regular expression matches, lowercase forms beyond ASCII) have names in the
contracts; random identifiers and the time are taken as they come.
