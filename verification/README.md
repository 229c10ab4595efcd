# mino-core, verified

The engine of a Windows 11 styling tool: settings ("tweaks") that are planned
against the registry, applied in one journalled batch, and put back exactly.
Everything under `src/` is checked by Verus; `app/` is the `mino` command line
around it (argument parsing, files, the floating-point colour shading).

Layout of `src/`:

- `provider.rs` - the registry as a model (values and keys), the provider
  trait, and an in-memory registry.
- `tweak.rs`, `tweaks/` - the settings, what each plans on a given registry,
  and the laws about them (`tweaks/settle.rs`: planning again after applying
  finds nothing to do; undoing a plan restores every value).
- `undo.rs` - when undoing a batch gives back every value.
- `engine.rs` - plan, apply, revert; `law_revert_restores_values` and
  `law_reapply_changes_nothing` (the shipped table keeps its settings apart,
  `tweaks/frame.rs`, which that law needs).
- `journal.rs` - journal entries, the `.reg` backup text, journal stores.
- `value.rs`, `text.rs`, `time.rs`, `utf16.rs` - colours, text, timestamps
  (`law_texts_sort_in_time_order`), registry strings.
- `profile.rs`, `packs.rs` - style packs and which of them are listed.
- `os.rs`, `winos.rs` - build gating and reading the build from the registry.
- `regdata.rs` - registry values as the Win32 calls read and write them (type
  number and bytes), and `law_written_reads_back`.
- `shell.rs`, `appbar.rs`, `dock.rs`, `looks.rs` - the surfaces drawn over the
  desktop: which windows they show, icon pixels, dock contents, reserved
  strips and what their windows do on a message, preferences.
- `cli.rs` - what the command line decides and prints.
