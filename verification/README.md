# obsidian_vault_grouper

Packs the text files of an Obsidian vault into a small number of Markdown
documents, newest files first, and lists in a manifest which file is in which
pack. A later run can resume: it skips what is packed already and numbers its
packs on.

- `src/` is the library, verified with Verus: which entries are packed
  (`scan`, `globs`, `listing`), their order (`order`), the packs (`plan`,
  `capacity`), names and numbers of the files that a run writes (`naming`), the
  documents themselves (`document`, `escape`, `timestamp`), what an earlier run
  has packed (`resume`, `round_trip`), retries (`retry`), the course of a run
  (`run`) and its summary (`summary`).
- `app/` is the command line program: arguments, walking the vault, reading and
  writing files.
- `tests/` are the library's tests.

Public proof functions whose names begin with `law_` state what holds of the
library as a whole.
