# flashseek

Instant file search for Windows: a complete name catalog with an
Everything-style query language, body search in chosen folders, Korean
natural-language queries, ranking, and preview snippets.

## Layout

- `src/` — the library, verified with Verus. Each public function states
  what it returns in its contract; the laws of the library (catalog reads
  after writes, search soundness and completeness, ranking order, snippet
  highlights, configuration round trips, …) are proof functions named
  `law_*`.
  - `query`, `pattern`, `matcher`, `nl` — the query language and its
    Korean natural-language front end.
  - `catalog`, `content`, `search`, `rank`, `engine` — the name catalog,
    the content index, matching and ranking.
  - `extract` — text of plain, HTML/XML, RTF, PDF and Office files.
  - `walk`, `watch`, `usn`, `mft` — filling and updating the catalog from a
    folder walk, change notifications, the USN journal and the master file
    table.
  - `cli`, `ui`, `preview` — decisions of the command-line tool and the
    window.
- `app/` — the program around the library: file-system access, the Windows
  volume and registry calls, JSON output and the native window.
- `tests/` — scenario tests of the library.

## Usage

```
flashseek --name-root C:\ --content-root C:\Users\you\Documents --query "지난주 세금 pdf" --json --out hits.json
flashseek --config %USERPROFILE%\flashseek.conf --query "invoice ext:pdf" --files-only --max-results 20
flashseek --window
```

A configuration file holds `name_root=DIR` and `content_root=DIR` lines
(the latter may repeat); blank lines and `#` comments are skipped.
