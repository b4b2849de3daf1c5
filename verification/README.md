# fuzz

A command-line search tool for text files. Instead of exact matches, every
line is found through a full-text index that tolerates typos, then scored
by a set of text-matching heuristics; the best lines are printed.

```text
fuzz [OPTIONS] <TEXT> <FILE_PATH>

  -t, --top <TOP>  Percentage of lines to return [default: 50]
  -l, --lines      Display line numbers
  -s, --score      Display relevance scores
```

## Layout

- `src/` is the library, verified with Verus:
  - `config.rs`: the settings and their checks;
  - `text.rs`: text as `char` sequences: substring search, whitespace
    splitting, UTF-8 byte offsets;
  - `score.rs`: the relevance heuristics, each with its exact meaning;
  - `filter.rs`: the stable ranking by descending score, the share kept,
    and the order keys that stand for scores;
  - `display.rs`: the printed text of the ranked lines;
  - `search.rs`: the full-text index (tantivy) of the lines;
  - `lib.rs`: `run`, which indexes, finds and scores.
- `app/main.rs` is the program: command line, file reading, the
  floating-point sum of the heuristics' points, printing.
- `tests/` holds the tests of the library.
