# clipboard_palette

The logic of a desktop tool that reads text from standard input and shows one
copy-to-clipboard button per item, verified with Verus.

- `src/text.rs`: character-level text: whitespace, trimming, lines, splitting
  at runs of a character, decimal pids; with the laws of splitting and
  trimming.
- `src/palette.rs`: modes and their precedence, the items each mode makes of
  the input, the sample data, and the data handed to the window.
- `src/lifecycle.rs`: the `[lifecycle]` report lines, the startup verdict, and
  the search for other running instances in `ps` output.
- `app/`: command line parsing, standard input, the JSON reader, signal and
  panic hooks, and the Tauri window.
