# sid_term

The decisions of a terminal text editor, written in Verus: what a key, a click or a changed
file leads to, and what is drawn where. Each is a function of plain values with a contract, and
Verus proves the contract.

- `src/format`: JSON and XML laid out, with nothing but white space changed, and left as they
  are when laid out again.
- `src/bindings.rs`, `src/shortcuts.rs`, `src/keymap.rs`, `src/input.rs`: shortcuts, what is in
  their way, and the screen they are changed on.
- `src/settings.rs`, `src/toml_file.rs`: the settings screen, and one entry of `config.toml`
  changed with the rest left alone.
- `src/config.rs`, `src/toml_tree.rs`: the configuration, one file laid over another.
- `src/session.rs`, `src/session_toml.rs`, `src/paths.rs`: what a project had open.
- `src/markdown`: Markdown drawn as it reads, and the panel it is drawn in.
- `src/picker`: a list narrowed by typing, with its panel of boxes and switches.
- `src/editor`: the tabs, the mouse, the keys, and what is marked in the text.
- `src/graphics.rs`, `src/theme.rs`, `src/width.rs`: rectangles, styles, and the columns a text
  takes.
- `src/git.rs`, `src/auto_save.rs`, `src/disk_changes.rs`: blame, saving on its own, and files
  that change on disk.

Functions marked `external_body` call the crates named in `Cargo.toml`; what is believed of
them stands above each. `app` holds what reads, writes and waits.
