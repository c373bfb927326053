# mcp-bookmark

A bookmark search service for AI clients: an MCP server that searches a
full-text index of browser bookmarks, and a native messaging host through
which the browser extension fills that index.

## Layout

- `src/` is the verified library. Its functions carry `requires` /
  `ensures` contracts that Verus proves:
  - `text`, `config`, `cli`, `paths`: text utilities, configuration,
    arguments, and file paths as lists of components;
  - `bookmark`, `chrome_profile`: bookmark trees and Chrome profiles;
  - `chunks`, `native_host`, `batch_manager`: the extension's protocol
    (message frames, chunked transfers, batches, index records);
  - `content`, `pdf_processor`, `mcp_server`: page metadata and main text
    read from HTML, PDF downloads and cache names, text cleanup, and the
    decisions of the MCP tools;
  - `search/`: query parsing, snippet extraction, page splitting of long
    documents, multi-index bookkeeping, result aggregation, fetch
    recommendations and the order of background page fetches.
- `tests/` runs the library on concrete values.
- `app/` is the program around it: the MCP server (rmcp), the tantivy
  index with its Japanese tokenizer, HTTP fetching, file I/O, and the
  ordering of results by floating-point relevance.
