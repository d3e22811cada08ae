# rldyour-clipboard

A clipboard that remembers. One daemon keeps everything you copy — text,
images, file references, at any size — and serves it back over a versioned
local protocol.

## Layout

`src/` is the archive itself, written and proved in Verus. It does no I/O: it
decides, and the daemon around it does.

| Module | What it holds |
|---|---|
| `kind` | What an entry is presented as, which representation is preferred, what is a secret, and the preview in a list row |
| `proto` | The frames of the protocol and how responses are written |
| `frame` | Cutting control frames out of a stream that carries payloads |
| `intake` | Taking one representation off a connection, consuming exactly what was declared |
| `session` | One connection's conversation: what each request does and answers |
| `outbox` | What is sent, and who is told when the archive changes |
| `store` | Publishing entries, the byte budget, which files are still needed, sweeping and reconciling |
| `store::index` | The metadata: recording, pinning, removing, evicting, listing, locating |
| `store::ledger` | Which blobs there are and how many references each has |
| `store::search` | Full-text search over the text of the entries |
| `store::identity` | What makes two clipboard events the same entry |
| `store::blobs` | Naming content by its digest |
| `store::thumb` | Dimensions, thumbnails and bitmap renderings of pictures |
| `store::laws` | What the operations on the index promise together |
| `capture` | Turning what X11 and Windows clipboards offer into representations |
| `settings` | What the environment decides |
| `text`, `order` | The string and ordering vocabulary of the rest |

`app/` is the daemon: sockets and threads, the SQLite file and the blob files
on disk, the X server and the Windows clipboard, and reading requests off the
wire. `tests/` runs the library against the real crates it depends on.

## What is trusted

A few functions of `sha2`, `image`, `rusqlite`, `serde_json` and the standard
library are called through small wrappers whose contracts are believed rather
than proved. Each says in its doc comment which function it stands for and
what it claims of it.
