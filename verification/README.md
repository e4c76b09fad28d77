# burrow-engines

Page-structure operations for PDF documents, written in Verus and proved against their
contracts: rotating, reordering, merging and splitting pages over an in-memory object graph;
the resource-graph walk that decides when editing a form or a content stream would reach a
page nobody selected; font surgery for redaction; the order a redaction's steps run in; the
raster ceiling; and the limits every operation is held to.

- `src/` is the library. Every function in it is verified; the one call it makes into an
  outside crate, SHA-256 from `sha2`, stands behind a wrapper whose contract names its result.
- `tests/` exercises the library on concrete documents.
- `app/` holds what the library leaves to the system: a wall clock for deadlines.

A document is held as plain values (`graph::Document`): a table of objects, the page list,
and the root of the page tree. Parsing and writing PDF bytes is left to an engine that
produces and consumes that table; none is part of this crate, so neither `src/` nor `app/`
reads or writes a PDF file, and the tests build their documents as tables.
