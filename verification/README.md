# Faust

A live Markdown preview for Obsidian vaults. Faust watches the vault and
re-renders a note the moment it is saved; it never writes to the vault.

```
faust                 # reopen the last vault
faust ~/notes         # open a vault
faust ~/notes/todo.md # open one note, inferring its vault
```

## Layout

- `src/` is the verified core, checked by Verus: the Markdown display tree
  (`markdown`), the split layout and its tabs (`layout`), the command palette
  (`palette`), the file tree (`tree`), the settings format (`config`), the
  search helpers and result streams (`index`), wikilink resolution
  (`wikilink`), the start-up target (`vault`), open documents (`document`)
  and the small text and path helpers they share (`text`, `paths`). Calls into
  `pulldown-cmark` and `nucleo-matcher` stand behind small trusted wrappers
  whose contracts say what those crates document.
- `app/` is the window around it: egui and eframe painting, the file-system
  watch, the search worker thread, reading files and folders, and the
  settings file on disk. It hands the core plain values and acts on what the
  core decides.
- `tests/` runs the core on concrete inputs.

## Notes on the model

The file tree keeps the folders it has expanded, and the listings it has
read, in vectors whose invariant says no folder appears twice, rather than in a
`BTreeSet` and a `HashMap`. vstd's specifications of those two hold only for
key types known to obey its key model (`obeys_key_model`, `key_obeys_cmp_spec`);
vstd establishes that for integers and a few wrappers of them, not for
`String`, and nothing but an assumption could establish it here. Folders are
keyed by `paths::path_key`, the component form of a path, so `/v/a/`, `/v//a`
and `/v/a` are one folder, as they are one `Path`.

The settings file round-trips as a whole: `Settings::text` writes the lines,
`read_settings` reads them, and `settings::law_settings_round_trip` proves
that reading what was saved gives the same settings and the numbers as they
were written.
