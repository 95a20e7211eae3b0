# pc_manager

A disk-cleanup and installed-software helper whose decisions are proved with
Verus.

- `src/` is the verified library:
  - `file_scanner`: what a directory scan keeps of each directory, protected
    paths, large files, the three-stage duplicate search (equal sizes, equal
    partial hashes, equal full hashes), and the clean-up plan and tally;
  - `software_manager`: reading the registry listing, searching it, and
    relating scanned files to install locations;
  - `digest`: MD5 over file contents fed in chunks (through the `md5` crate)
    and its hexadecimal form;
  - `report`: what the commands report: the yes/no answer, the largest
    files first, and totals that refuse to overflow;
  - `timefmt`: the modification-time text;
  - `text`: the character-level helpers the others share.
- `app/` is the command-line program: arguments, file system access, worker
  threads, running the registry listing, and printing.
- `tests/` runs the library on concrete values.
