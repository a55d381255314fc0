# ani-dl

A command-line browser and downloader for the anime-sama catalogue, whose
core is verified with Verus.

- `src/` is the verified library:
  - `text.rs`, `scan.rs`, `numbers.rs`: character-level primitives
    (whitespace, trimming, searching, splitting, decimal rendering and
    parsing) with their specifications;
  - `sources/`: the catalogue's page grammars (`panneauAnime` calls,
    `var epsN = [...]` arrays, quoted links), the choice of the best link
    per episode, seasons and their languages, search results;
  - `config.rs`: mirror lists, normalization, and the probing of mirrors
    one at a time;
  - `data.rs`, `anime.rs`, `cli.rs`: the data-file cache decisions, its
    records, and what the command line shows and names.
- `app/` is the program around it: prompts, network requests, files,
  threads and the `yt-dlp`/`mpv` processes.
- `tests/` runs the library on concrete inputs, and compares the page
  grammars with the equivalent regular expressions.
