# git-nfs

`git-nfs` serves a remote Git repository as a file system over NFSv3, without cloning it. Trees are
read when the repository is mounted, blobs when they are needed. Edits are staged, written to a log,
and packed into a commit: after half a minute without writes, and on shutdown. What a crashed session
left in its log is recovered by the next one.

The logic is a library, verified with [Verus](https://github.com/verus-lang/verus); the program around
it does the I/O.

## The library: `src/`

| module | what it does |
| --- | --- |
| `git::pack`, `git::pack_writer`, `git::idx` | packfiles and their indexes: unpacking, deltas, writing, lookups |
| `git::tree`, `git::hash`, `git::protocol` | trees, object names, packet lines |
| `git::smart_http`, `git::gcs_storage` | requests to a server, and objects and references in a bucket |
| `git::engine`, `git::startup` | what is known of a repository: its trees, its blobs and who fetches them |
| `git::builder`, `git::commit_message` | trees and commits from edits, and what commits say |
| `cache` | blobs and packfile blocks in memory and on disk |
| `vfs`, `staging` | the tree of nodes, and the edits |
| `wal` | the log of edits: its wire format, its names, and recovery from it |
| `nfs`, `mount`, `session` | the file system's operations, and what surrounds a session |
| `text`, `bytes`, `maps`, `sorting` | what the others are made of |

Each function states what it returns, for every input, over models of the data (`EngineView`,
`VfsView`, `StagingView`, `FsView`, ...). Where work outside is needed, a function takes what happened
and says what has to be done next: it never waits.

What holds across functions stands in the `laws` modules and beside the types. Among others:

- a packfile that is written is read back, and its index leads to each of its objects;
- what is written to a file is read from it, and replaying the log makes the same edits;
- a log that was cut off is read up to the cut;
- an object read out of a packfile piece by piece is what unpacking the packfile gives;
- a recovery seals all logs first, publishes before it marks any as done, and leaves nothing behind;
- the pages of a directory together list each of its entries once;
- a file that was created, written or cut off is in the commit, under its path and with its contents;
- a file that was renamed is in the commit under its new path, and so is a directory with nothing
  edited below; nothing is there under the old path, nor where something was removed, unless another
  child has the name;
- each node is listed once, in its directory, and its path leads to it where each name on the way is
  found and stands once;
- no tree of a commit holds macOS metadata, and none is one that the repository has already;
- a range of a packfile read block by block is what stands there;
- a commit that was published is the one that the references lead to.

SHA-1 and CRC-32, zlib streams, hexadecimal text, the least-recently-used store, and the variable-length
numbers of Protocol Buffers come from the crates `sha1`, `flate2`, `hex`, `lru` and `prost`. What is
assumed of each stands above the function that calls it.

## The program: `app/`

Argument handling, HTTP, cloud storage, the disk, the NFS server and the mount command. Appendable
objects in a bucket need the storage client built with `--cfg google_cloud_unstable_storage_bidi`;
without it, logs are written as whole objects, each time on the condition that nobody else wrote them.
