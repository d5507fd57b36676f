# quickaccent

QuickAccent shows a picker of accented characters while a letter is held.
This crate is its logic, verified with Verus:

- `src/config.rs` — the settings, their defaults, and the activation key a
  setting names.
- `src/languages.rs` — rewriting the `languages = [...]` assignment of
  `config.toml`: the text before the assignment's line and after its closing
  `]` (other lines, line endings, a trailing comment) is kept exactly as it
  was. `replace_languages` ensures that the written list is what a later
  read finds and that writing it again changes nothing; the laws
  `lemma_languages_override` (a later write replaces an earlier one) and
  `lemma_rewrite_overrides` state the rest.
- `src/toml_scan.rs` — finding the `]` that closes a TOML array, past
  brackets inside strings, comments and nested arrays.
- `src/lines.rs`, `src/text.rs` — lines, leading white space and characters
  of a text, over its `Seq<char>` view.
- `src/overlay.rs` — the picker: pages of choices, labels, and what each
  message asks of the picker's window (never more than one window).
- `src/service.rs` — the requests of the desktop panel menu.

`app/` is the program around it: file and bus I/O, the iced window, text
measurement in floating point, and the macOS status item.
