# gift

A small git, and `giftai`, which keeps conversations with a language model as commits.

The library in `src/` holds the rules: how objects, trees, commits, the index, references, packs
and pkt-lines are read and written; what a commit, a checkout, a merge, a fetch, a push or a status
does; how conversations are numbered, selected, drawn and merged. It works on values only. Where a
command has to touch the disk or the network, the library says what to do, as a plan, and `app/`
does it: `app/disk.rs` for files, `app/net.rs` for remotes, `app/llm.rs` for the completion
service, `app/cli.rs` and `app/chat.rs` for the two command lines.

Every function of the library is verified with Verus against a contract over mathematical models:
byte sequences, maps from ids to the loose form of objects, and trees of names. What holds of
several functions together stands in proof functions whose names start with `law_`: that what is
written is read back, that a checkout touches no untracked file, that a push loses nothing, that a
merge decides once for each name, that nothing is staged after a commit or a checkout, and so on.

Not proved, but believed, are the contracts in `src/outside.rs` (SHA-1, zlib, line diffs and
merges) and three of the standard library's text functions in `src/text.rs`.
