# electrolysis

Keeps Xcode `project.pbxproj` files clean, deterministic and merge-safe: repairs
what merges have broken, gives every object a UUID that is the digest of its
path, and sorts the file.

The library in `src/` is written in Verus.  Every function states what it does,
and the proofs are part of the sources.

| Modules | What they hold |
|---|---|
| `text`, `order`, `listing`, `table`, `paths`, `calendar` | texts, orders, lists, tables, paths, timestamps |
| `pattern` | the regular expressions, and what they match |
| `sanitizer` | the repair passes |
| `parser`, `plist` | the property list of a project |
| `uniquifier` | paths and UUIDs of objects, and rewriting a text with them |
| `sorter` | the sort passes |
| `scheme_updater` | UUIDs in schemes |
| `mapper`, `report` | maps of projects, their differences, and what is said of them |
| `filesystem`, `logger`, `config`, `pipeline`, `merge_driver`, `cli` | from file to file |
| `lexing`, `reading`, `line_reading`, `project_facts` | a text as a bag of facts, read line by line |
| `shape`, `level`, `renamed_facts`, `sorted_facts` | what the passes do to a text and to its facts |
| `*_laws` | what holds of the passes as a whole |

`app/` holds the command line program around the library, `tests/` the tests.
