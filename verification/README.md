# caplike

`caplike` keeps several versions of a tool side by side in one directory as
archives named `<name>-<version>.<ext>` (`.zip`, `.tar.gz`, `.tar.bz2`,
`.tar.xz`), tells which one is the latest of a name, and installs one by
unpacking it and pointing a link named `<name>` at its directory.

- `src/` is the verified library:
  - `grammar.rs`: the file-name grammar (versions `v1`, `v1.2`, `v1.2.3` or
    dates `YYYY[-]MM[-]DD` at a word boundary, followed by a dot) and text
    search;
  - `archive.rs`: archives, their formats and errors, and reading a file name
    as an archive;
  - `version_order.rs`: human-friendly version order and the latest archive of
    a name;
  - `catalog.rs`: keeping archives of a name and grouping runs of one name;
  - `prompt.rs`: the selection state of the prompt that picks an archive, and
    what keys do to it;
  - `install.rs`: the steps that install an archive;
  - `cli.rs`: the commands.
- `app/` is the command-line program: directory listing, the terminal user
  interface, running `unzip`, making the link.
- `tests/` runs the library on concrete cases.
