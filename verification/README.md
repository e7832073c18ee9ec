# wikidata_index

A local search engine over a Wikidata dump, with its core verified by Verus.

The indexer reads the dump one entity per line, turns each entity into a
document (its titles, pages, classes and popularity rank), gathers documents
by batch and writes them into two tantivy indexes: one of searchable titles,
one of stored entity bodies, where labels are grouped by text and their
languages (and wiki sites) are kept as numbers. The API reads those bodies
back, answers searches and builds infoboxes from Wikidata and Wikipedia.

## Layout

- `src/` — the verified library.
  - `text`, `sorting`, `text_map`, `json`: decimal numbers, byte-wise text
    order, sorting, a text-keyed map that remembers its key order, and a JSON
    model.
  - `indexer/`: reading dump items (`parse`), the class configuration
    (`instance_of`), ranks, the numbering of languages and sites
    (`string_to_id`), the batch pool (`documents`) and what is written of each
    document (`write`).
  - `api/`: the dictionaries as loaded (`string_to_id`), decoding stored bodies
    (`storage`), infoboxes (`infobox`), and the laws that tie what the API
    reads back to what the indexer wrote (`read_back`).
  - `charabia_tokenizer`, `facet`: the calls into charabia and tantivy, behind
    trusted wrappers whose results are named.
- `tests/` — tests of the library on concrete values.
- `app/` — the programs: the indexer's I/O loop and tantivy writing, the
  tokenizers seen through tantivy's traits, and the HTTP API.
