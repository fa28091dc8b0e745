# ccfind

A search tool for recorded coding sessions: it indexes the session files of a
coding agent into SQLite with FTS5 and lets the user search them through fzf.

- `src/` is the verified library: classifying the events of a session file,
  deciding what to (re)index, merging what was read into the index, building
  search statements, choosing the hits, and laying out what the terminal shows.
- `app/` is the program around it: the command line, the database, the files,
  the picker.
- `tests/` runs the library on concrete inputs.

Sessions lie in `~/.<agent>/projects/*/*.jsonl`, and `<agent> --resume <id>`
resumes one. The agent is the only program of which there are sessions; where
there are several, the environment variable `CCFIND_AGENT` names it. The index
lies in `~/.cache/ccfind/index.db`.
