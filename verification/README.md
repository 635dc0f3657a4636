# ooxml

The core of a toolkit for office documents, written in Verus: every function in
`src/` states in its contract what it returns, and the contract is proved. Not
proved but believed are the contracts of eleven calls into std: `String::push`,
`{:?}` of a text and of a character, UTF-8 (strict and lossy), the three classes
of characters in Unicode, `char::from_u32`, and the two capacities (`text`,
`xml::entity`, `dom::memory`).

- `bytes`, `hash`, `limits`, `error`, `text`: cursors over bytes, checksums,
  quotas, errors and text.
- `deflate`: packing and unpacking of DEFLATE streams. What was packed unpacks to
  the same bytes (`deflate::roundtrip`). The stream follows from the data and the
  level alone (`deflate::encode::packed`): which matches are found
  (`deflate::lz77::block_at`), which codes they get (`deflate::tree::lengths_of`),
  and in which form each block is cheapest. No codes cost less than those of the
  merged tree (`deflate::forest`).
- `xml`: pieces of a part, names, namespaces, entities.
- `dom`: a tree over the bytes of a part. A part that was read is written as it
  was (`dom::laws`), and an edit changes one region of the bytes and nothing else
  (`dom::locality`, `dom::region`).
- `opc`: packages, their parts, types and relationships. What was not changed is
  copied when a package is saved, and nothing points at a part that was removed
  (`opc::save`, `opc::fidelity`).
- `formula`: formulas that print as they were read, and references that move
  (`formula::laws`, `formula::ref_laws`, `formula::respell`).
- `export`, `bridge`: workbooks as HTML, and as blocks of bytes for a host. No
  markup of a page comes from a workbook (`export::laws`).

`app/` holds the program: the command line, numbers with a fraction and the
boundary to a host. `tests/` runs the library on values.

The fields of a `Document`, a `Package` and what belongs to them are the crate's
own. So these values come from its functions only, and each of them keeps what
holds of them (`wf`).
