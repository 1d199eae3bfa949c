# repo_lines

`repo-lines` draws terminal charts along a Git revision's first-parent
history: the number of lines per commit (optionally with the non-blank lines
overlaid), the fraction of lines per language, or the number of commits per
day, ISO week, month or year.

- `src/` is the verified library: the command line, the charts and their bars,
  the calendar arithmetic, line counting, language detection, the arguments
  and input the program gives git, the parsing of everything git prints
  (`log`, `diff-tree`, `check-attr`, `grep`, `cat-file`), the choice between
  counting blobs and counting each commit with `git grep`, which blobs to
  count, and the running totals that make the line and language histories. Each public function states its result in its contract; the
  laws of the library (a language row always fills its bar, rows depend only on
  fractions, detection ignores case, taking away a file's lines undoes adding
  them, every commit is counted once, ...) are public proof functions.
- `app/` handles the command line and the terminal, runs git (with the
  arguments and input the library gives), reads the blobs the library asks
  for, hands everything git prints to the library and prints the chart.
- `tests/` runs the library on concrete values.
