# markstore

A store for markdown documents: documents are identified by the hash of their
content, cut into overlapping chunks for full-text search, and linked into a
knowledge graph by WikiLinks, hashtags and repeated phrases. The program `mks`
keeps the store in a single SQLite file.

## Layout

`src/` is the library. Everything it does is stated in contracts and proved by
Verus.

| Module | What it holds |
|---|---|
| `text` | operations on text, as sequences of characters |
| `table`, `order` | rows, searches over them, stable sorting |
| `document`, `chunk` | identity, frontmatter, titles, chunks |
| `graph` | nodes and edges, and their extraction from a text |
| `fetch` | the title and the readable text of a web page |
| `db` | the tables of the store and its operations |
| `ingest` | adding documents and pages, and what the store promises about them |
| `traverse`, `path`, `report` | neighbourhoods, shortest paths, hubs and the report |
| `search` | query prefixes and exclusions, filters, paging and sorting of results |
| `rows` | documents and nodes as rows of text |
| `cli`, `command` | the commands, what they do and what they print |
| `watch` | what is done when a file changes |
| `store` | a plain store of records beside a full-text index |

`app/` is the program around it: the command line, the database file, the
network, the file system, and the arithmetic on embeddings.

`tests/` runs the library on concrete values.

## What is trusted

The library calls other crates in a few places, each behind a small function
whose contract says what is believed of the call: `sha2` and `hex` for hashes,
`serde_yaml` and `serde_json` for frontmatter and JSON output, `regex` for finding
links, tags and phrases, `chrono` for times as text, and the standard library for
letter case and character classes.

## Notes

- Weights of edges are counted in thousandths.
- Similarities of embeddings come into the library as whole numbers that grow
  with the similarity.
- Deleting a document also deletes the nodes that it alone linked. A node that
  another document links stays.
