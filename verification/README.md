# fuz

Fast fuzzy text-file searching: like ripgrep, but with fuzzy matching in place
of regular expressions.

```
fuz [-n N] [--no-file-limit] [--no-line-limit] PATTERN
```

- `-n N`: return at most N results (default 20).
- `--no-file-limit`: search files larger than 10 MiB (skipped by default).
- `--no-line-limit`: search lines longer than 64 KiB (skipped by default).

Each result is a line `path:line:column:content`, the best one first. A pattern
with an upper-case letter is searched for with case, any other without.

## Layout

`src/` is the library, verified with Verus:

- `bytes`: byte classes, byte searches, and the order of byte strings
- `scoring`: the score of a match
- `matcher`: which lines match, and the best match in a line
- `heap`, `topk`: the best matches so far
- `walker`: the lines of a file, and what becomes of each file
- `report`, `printer`: the order of the results, and how they are written
- `args`: the command line
- `stats`: counters
- `watch`: when to give up because nobody reads the output

`app/` is the program around it: the directory walk, reading files, signals,
and output. `tests/` holds the tests.
