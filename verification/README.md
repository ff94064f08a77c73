# savetensor_disksort

Inventories AI model files (`.safetensors`, `.pt`, `.ckpt`, ...) spread over
several drives, plans where each should go, and relocates them safely: copy,
verify by BLAKE3 checksum, delete the source only when the checksums match,
then re-point the application symlinks.

## Layout

- `src/` is the library, written in Verus. Every function carries a contract
  and is proved against it, except the few small wrappers that call the
  standard library, BLAKE3 and the system clock, whose contracts are trusted:
  - `discovery`: file records, exclusion and category rules, the symlink walk
    and its cross-reference with the inventory.
  - `accounting`: duplicate candidates and the per-folder size tree.
  - `planner`: destination templates, destinations that never coincide with
    one another nor with another file's current path, the space analysis
    with its 5% margin and freed space per source mountpoint, and plan
    validation.
  - `executor`: the run of a plan as a state machine (copy, verify, delete,
    re-link), checksum comparison, and crash recovery from the journal.
  - `persistence`: the inventory summary and the journal's events.
  - `tui`: the application state, key bindings, tree and checkbox rows.
  - `utils`: sizes in base 1024, path normalisation, hashing.
- `app/` is the command-line and terminal program around the library: file
  system access, JSON files, threads and rendering.
- `tests/` exercises the library on concrete values.
