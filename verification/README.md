# EMBR

A solid, seekable, deduplicating archive container, with what it promises stated
as contracts and proved.

```
+---------------------------+
| Header            16 B    |  magic "EMBR", version
+---------------------------+
| Block 0                   |  solid, independently decodable
| Block 1                   |
| ...                       |
+---------------------------+
| Index                     |  zstd-compressed paths, metadata, block map
+---------------------------+
| Footer            64 B    |  where the index is, and its BLAKE3
+---------------------------+
```

Creating an archive runs four phases: **walk**, **hash**, **sort**, **pack**.
Reading one finds the index through the footer and then decodes only the blocks that a
file touches.

## Layout

| Module     | What it holds                                                    |
|------------|------------------------------------------------------------------|
| `text`     | splitting, trimming, folding and ordering text                   |
| `bytes`    | little-endian integers                                           |
| `order`    | stable ordering by key                                           |
| `stream`   | bytes on their way to and from an archive file                   |
| `error`    | faults                                                           |
| `classify` | lanes and the order in which files are packed                    |
| `codec`    | encoding and decoding of one block: store, zstd, xz              |
| `coder`    | encoders that take their input piece by piece                    |
| `digest`   | BLAKE3                                                           |
| `paths`    | which archive paths are accepted, and where they land            |
| `index`    | header, footer, index                                            |
| `raw`      | the serialized form of the index                                 |
| `contents` | what blocks hold and what segments make of it                    |
| `fetching` | which blocks are asked for, and what comes of the answers        |
| `pack`     | packing files into blocks                                        |
| `seen`     | which contents are stored already                                |
| `plan`     | what creating an archive comes to                                |
| `reading`  | reading the files that are to be archived                        |
| `writer`   | creating an archive                                              |
| `select`   | which entries are meant, and in which order files are taken      |
| `reader`   | opening, reading and verifying an archive                        |
| `extract`  | extraction, step by step                                         |
| `report`   | settings from flags, figures for listings and summaries          |
| `laws`     | what holds of an archive as a whole                              |
| `passes`   | reading many files in one pass, each block once                  |
| `placement`| where the files of an archive lie                                |
| `success`  | what is owed when nothing stands in the way                      |
| `tree`     | from the tree that was archived to the tree that is extracted    |

`app/` is the command line: arguments, the file system, messages.

## What is taken on trust

zstd, xz, BLAKE3 and bincode are called, not proved. Each call stands in a small
function that says what is believed of it: that a decoder gives back what its
encoder was given, that a digest taken in pieces is the digest of the whole, and
that what these functions return depends on their arguments alone. Two things are
left open: which frames the encoders write, which need not be the same each time,
and whether zstd can start its worker threads.

Reading and writing files is left to the caller. The library asks for bytes and hands
bytes on through four traits: `Source` (an archive that is read), `Files` (the files
that are archived), `Sink` (where bytes go) and `Progress`. Each keeps a record of what
it was asked, given or told, and the contracts are stated over these records: every
request that was made, what was made of each answer, and that what the sink took is the
archive, or the file, and nothing else. The traits have implementations here, in memory
and by functions that the caller hands in (`FetchBy`, `ReadBy`, `GiveTo`, `TellBy`);
these note each call and its answer as it happens, so that nothing is assumed of the
functions.

## Limits

- A block is held in memory while it is decoded, also one that holds a single large
  file. When it is written, such a file streams through its encoder.
- Byte-identical files are recognised by their digest. Two different files with
  the same digest would be stored as one; the laws about deduplicated archives
  leave such files out.
