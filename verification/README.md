# grepdown

Index, search and lint a folder of Markdown notes.

- `src/` is the library, verified with Verus: link and heading extraction,
  anchor slugs, path resolution, front matter tags, the change detection of a
  refresh, link planning, search-hit merging, link-graph reachability, the
  stale-reference lint and its approval, and the decisions of the command
  line, the MCP tools and the file watcher.
- `app/` is the program around it: the SQLite index (rusqlite), the file walk,
  the `grepdown` command line (clap) and its `grepdown mcp` server (rmcp).
- `tests/` runs the library on concrete documents.
