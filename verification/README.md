# Brandon

Toolkit for Ethereum ERA/ERA1 archives, written and proved in Verus.

- Read and stream ERA and ERA1 files, entry by entry or block by block
- Random access to blocks by slot
- Build new ERA archives
- Verify archives, and compare them with SHA256 manifests
- Rebuild indexes, strip entries, split archives into files, turn ERA1 archives
  into ERA archives

## Layout

| Path | Content |
|---|---|
| `src/format` | The e2store container, entry types, slot indexes, ERA1 records |
| `src/read` | Typed entries, block assembly, random access |
| `src/write` | The entry writer and the ERA builder |
| `src/verify` | Verification of archives, checksums and manifests |
| `src/convert` | Reindexing, stripping, splitting, ERA1 to ERA conversion |
| `src/fs` | File names and directories of archives |
| `src/cli` | What the commands decide and report |
| `app` | The command-line program: arguments, files and printing |
| `tests` | Tests on concrete values |

The library works on bytes in memory: readers take slices, writers append to
vectors, and what is to be written to disk or printed is returned as a value.

## What is proved

Every function of the library states in its contract what it returns, and on
which inputs it fails with which error. The modules named `laws` relate the
functions to each other: a file that was built opens, each of its blocks is
found at its slot, streaming gives the blocks back, and verification finds no
error in it; the typed entries of a file are its raw entries, decoded in order,
and each ERA1 header gives one block with its own parts; reindexing keeps the
content and is done after one run; a stripped file has none of the stripped
entries, and two strips are one strip of both; a manifest that was written is
read back.

Not proved, but taken from the crates that do the work, is what Snappy
compression (`snap`), SHA256 (`sha2`) and hexadecimal notation (`hex`) compute,
and that `String::push` appends a character. Each such function has a small
wrapper whose comment says what is taken for granted.

## Commands

```bash
brandon info file.era1
brandon verify file.era1 --manifest checksums.txt
brandon read file.era1 --slot 42
brandon read file.era1 --all --output-dir ./blocks/
brandon build --blocks-dir ./compressed/ --output out.era
brandon convert reindex file.era1 -o fixed.era1
brandon convert strip file.era1 -o slim.era1 --strip-receipts
brandon convert split file.era1 --output-dir ./blocks/
```
