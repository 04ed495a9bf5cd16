# seekfs

A read-through cache over object storage, for training data: files live in a bucket,
immutable manifests describe them, and reads go through a cache of fixed-size pages.

The library under `src/` is verified with Verus: the keys and manifests, the reads, the page
caches, the calls of the object store with their budget, slots and tries, and publishing.
Whatever alternates with outside work (requests, streams, files, clocks) is a machine: it
takes in what came of the last action and names the next one.

| module | what it decides |
|---|---|
| `layout`, `manifest`, `types`, `proto` | keys of objects, manifests, cache keys, requests |
| `publish` | a manifest from the bytes of a file, and the order in which it and HEAD are stored |
| `cache` | which manifests are fresh, how one is loaded, and when |
| `read`, `blob` | one range of one file, from cached pages |
| `plan`, `readv` | many ranges of many files |
| `l2`, `mem`, `segment` | the page caches in memory and on disk |
| `store`, `fetch` | the object store: settings, errors, coalescing, tries |
| `gate` | the budget of requests per second, and how many are under way |
| `probe`, `config` | the probes of the daemon and its configuration |
| `digest`, `codec`, `text` | checksums, hashes, compression, text |

`app/` is the program around it: the HTTP daemon, the control commands, the S3 clients and
the files of the cache on disk. It decides how long to wait before the next try (times are
drawn at random there), what the client libraries are asked, and nothing of what is above.
`tests/` runs the library on concrete values.

The store over the AWS Common Runtime is built in with `RUSTFLAGS="--cfg seekfs_crt"`; it
needs the C toolchain of `mountpoint-s3-client`. Without it a daemon with `engine = "crt"` runs
without a store.

## Replies

- `GET /blob?ns=&path=&off=&len[&hash=]` answers with one range.
- `POST /readv?ns=` with `[{path, off, len}, ...]` answers with the ranges, one behind the
  other, in the order of the request.
