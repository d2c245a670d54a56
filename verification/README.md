# refac

A small suite of file-management tools with a verified core:

- `refac` renames files and directories and replaces their content below a
  root directory, after checking the planned renames for collisions;
- `scrap` / `unscrap` move items into a `.scrap` folder, list, search, clean,
  archive and restore them;
- `verbump` keeps a version file up to date from git history through a
  pre-commit hook.

## Layout

- `src/` is the library, verified with Verus:
  - `text.rs`: string operations stated over character sequences (search,
    replace, split, lines, trimming, decimal numbers);
  - `path.rs`: file names, joining, depth below a root;
  - `pattern.rs`: regular expressions through the `regex` crate;
  - `rename.rs`: the rename planner (`RenameEngine`), the rename order and the
    run's summary texts;
  - `collision.rs`: collision detection and its report;
  - `binary.rs`: binary/text classification (through `content_inspector`);
  - `scrap.rs`: the `.scrap` bookkeeping (metadata, names, listing order,
    sizes and ages);
  - `verbump.rs`: version numbers from git output and the hook file.
- `app/` is the command-line program around it: argument parsing, the
  filesystem, git, prompts, archives and JSON files.
- `tests/` exercises the library.
