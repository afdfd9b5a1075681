# xref-indexer

Indexes C and C++ sources with tree-sitter and keeps what it finds (definitions, references,
call edges, inheritance) in a SQLite database that a language model, or any other tool, can
query.

The library under `src/` holds the rules and algorithms, each with a contract that Verus proves.
The programs under `app/` read files, run threads, talk to SQLite, to standard input and output,
and to HTTP clients, and hand plain values to the library.

## Layout

| Part | Modules |
|------|---------|
| Text, paths, JSON | `text`, `paths`, `json`, `json_text` |
| Syntax trees and parsing | `syntax`, `names`, `scope`, `def_pass`, `ref_pass`, `cpp_parser`, `parser` |
| The index | `types`, `lookup`, `index`, `indexer`, `source` |
| Tables | `rows`, `schema`, `checksum`, `save`, `load`, `stream_order`, `stream`, `config` |
| Updates | `incremental`, `reindex` |
| Commands | `args`, `cli`, `queries`, `expand`, `snippet`, `hits`, `responses`, `benchmark` |
| Servers | `tool_args`, `tools`, `mcp`, `server` |
| Laws | `parser_laws`, `index_laws`, `db_laws`, `stream_laws`, `incremental_laws`, `contents_laws`, `link_laws`, `reindex_laws`, `query_laws`, `tool_laws`, and the `law_` functions of the modules above |

A contract speaks of a value through its view: a `SyntaxTree` for a syntax node, an `IndexView`
for an index, a `TablesView` for the tables of a database, a `JsonView` for a JSON value. Whatever
relates several functions is a `law_` proof function over these views.

## What is trusted

Calls into other crates stand behind small functions whose contracts are taken as they are, each
with a comment that says what is claimed: tree-sitter and its grammars in `syntax`, `serde_json`
in `json_text`, the hash maps and sets of `rustc_hash` in `lookup`, and a few functions of the
standard library in `text`, `source` and `index`.
