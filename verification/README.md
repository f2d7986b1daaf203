# hoa_backend

Generates the course pages of the HOA site (`content/docs/`) from training plans
(`hoa-major-data/`) and course repository files (`repos/`), optionally fetching
those files from GitHub first.

- `src/` is the library, verified with Verus: the semester table, the file-tree
  rules and the file tree's JSX, front matter and page text, the pages and index
  pages of each plan and year, repository ID and grade-detail resolution, the
  repository listing's paging, file-content decoding and fetch bookkeeping. Its
  contracts state what each function returns; its `law_*` proof functions state
  properties that span functions.
- `app/` is the program around it: argument handling, reading and parsing the
  data files (serde, TOML, JSON), YAML serialisation of front matter, HTTP
  requests to GitHub, and writing the pages.
- `tests/` runs the library on concrete inputs.

Run with `--fetch` to fetch README.md and worktree.json of every course
repository of `HOAHRB-Courses` into `repos/` before generating.
