# Trawl

Trawl searches directory names, file names and file contents for a keyword. It starts from the
current directory, walks the directory tree with a pool of worker threads, and prints matches as
they are found.

```bash
trawl "search term"
```

The library in `src/` holds the logic, verified with Verus:

- `matching`: finding the keyword in a text, with or without regard to ASCII case, and moving
  offsets to character boundaries
- `encoding`: byte order marks, and decoding UTF-8, UTF-16 and UTF-32
- `text`: lines, slices and decimal numbers
- `paint`, `highlight`: colouring matches and what lies between them
- `hit`: the report of a match, with a little context
- `search`: the lines of a file and the reports on them
- `walk`: which directory entries are searched
- `options`: the command line
- `duration`, `jobs`: the time a search took, and the count of unfinished jobs

The program in `app/` reads directories and files, runs the worker threads and prints.
