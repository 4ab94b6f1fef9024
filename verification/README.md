# atlas621

A map of the e621 tag space: tags become nodes, their co-occurrence becomes
edges, communities and territories are cut from the layout, and the result is
written as the static dataset the site reads.

The crate is written in Verus. `src/` is the verified library: the integer
data structures and the rules of the pipeline, each function with a contract
that Verus proves. `app/` is the program around it: argument handling, file and
network I/O, the floating-point stages (embedding, layout, t-SNE, fit scores) and
the serialisation of the library's types.

## src/

| module        | what it holds |
|---------------|---------------|
| `pairs`       | co-occurrence counts keyed by tag pair |
| `csr`         | compressed sparse rows built from link lists |
| `bin`         | little-endian encoding of integer columns |
| `checksum`    | SHA-256 of a download and its hex checksum |
| `sorting`     | orderings on integer keys and named rows |
| `num`         | reading unsigned decimal numbers |
| `tags`        | the tag table and its name index |
| `posts`       | reading post rows and counting tags, pairs and years |
| `previous`    | reading a previous dataset's layout for a warm start |
| `communities` | renumbering communities by size |
| `names`       | naming the regions from their candidates and families |
| `hex`         | hex discs, density basins, the hex cut of the nodes and continents |
| `edges`       | the co-occurrence threshold of a tag |
| `search`      | shard keys and rows of the search index |
| `text`        | bulk update scripts, dates and request rows |
| `history`     | dating a tag's history and ordering the changelog |
| `wiki`        | wiki excerpts and see-also links |
| `emit`        | scene selection, year cells, community names, adjacency runs and text shards |
| `exports`     | finding an export in the manifest |
| `territories` | region and continent metadata |

Outside crates are reached through small trusted wrappers whose contracts
state what the crate documents: `rustc_hash` maps, `regex`, `jiff`, `sha2`,
`flate2`, `arrow` IPC reading and a few std functions (`sort_unstable`, `str::to_lowercase`, `str::from_utf8`).
Arrow files are opened only after a verified check of their footer and block
lengths, so that arrow's reader answers malformed ones with an error rather
than a panic.

## Tests

The tests under `tests/` run the library on concrete inputs, with the real
outside crates linked.
