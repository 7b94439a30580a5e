# nrctool

The logic of a small desktop tool that installs NoRisk client packs into a Minecraft mods
folder, written in Verus with its contracts proved.

* `src/` is the verified library:
  * `model.rs` – the pack manifest (packs, mods, builds, repositories) and keyed lists;
  * `resolve.rs` – resolving a pack's mods through its inheritance and exclusions;
  * `catalog.rs` – the game versions, loaders and branches that the manifest offers;
  * `download.rs` – what to download for a build, maven addresses, safe file names;
  * `install.rs` – planning an installation, the files it replaces, and detecting what a
    mods folder holds;
  * `profiles.rs` – launcher profiles: their order, names and labels, and the entries of the
    official launcher's profile list;
  * `json.rs` – JSON values, read from bytes with `serde_json`;
  * `paths.rs` – the path rules of Unix and Windows: separators, drives, and comparing folder
    paths component by component;
  * `selection.rs` – the choices in the window and the texts it shows;
  * `sorting.rs`, `text.rs`, `error.rs` – stable sorting, text helpers, error messages.
* `app/` is the program around it: the window (egui), downloads (reqwest), the file system,
  and reading the manifest and state files (serde).
* `tests/` runs the library on concrete values.
