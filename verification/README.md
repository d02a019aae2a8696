# tomb

A markdown todo file manager. A managed file holds a frontmatter block and
sections (`## Today`, `## Backlog`, `## YYYY-MM-DD`) of task list items with
block ids (`^a1b2`), links, descriptions and nested tasks.

`src/` is the library, verified with Verus:

- `text`, `date`: characters, lines, trimming, decimal numbers, block ids;
  calendar dates as chrono reads and writes them.
- `markdown`: the event stream of pulldown-cmark, named by its source text.
- `task_parser`, `parser`, `frontmatter`: reading a file from its events.
- `renderer`: writing a file back, with the laws that the frontmatter,
  headings and ids read back as written and that sections come out in order.
- `id`, `slots`: prefix lookup, collecting ids, duplicates, and giving new
  ids, with the laws that ids end up unique.
- `config`, `io`: choosing the config file, resolving paths, expanding file
  entries, and the conflict check before a write.

`app/` is the program around it: argument parsing, reading and writing files,
finding and parsing the config file, and glob expansion. `tests/` runs the
library on concrete files.
