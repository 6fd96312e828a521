# pdf_subset

Verified page subsetting and ink separation for PDF documents.

- `src/subset` builds a new file from chosen pages of one or more documents. It copies what the
  pages need, trims their resources to the names in use, keeps what of the outline, the structure
  tree, the form and the links still has a target, collapses equal objects, drops what nothing
  reaches, and writes the file.
- `src/separation` goes through the content of a page for one ink and lists what is painted on the
  plate of that ink and with what tint.
- `src/document.rs` and `src/object.rs` hold a parsed document; reading a file is left to the caller.
- `app` paints plates with `tiny_skia`.

Every function of the library states what it returns over spec functions on mathematical values. What
holds of a rebuild as a whole is proved on top of these, for every selection of pages that can be
rebuilt:

- `subset/faithful.rs`, `subset/sound.rs`: each copy has the shape of its source, two source objects
  have two copies, and no page is copied as an object.
- `subset/again.rs`: a source object, a form and a form field are copied once, whatever is done before
  they are asked for again.
- `subset/direct.rs`, `subset/dests.rs`: a value that is taken over as it is holds no reference, and an
  action that is kept refers to its page at most.
- `subset/usage.rs`, `subset/defaults.rs`: what is drawn by a form that takes its resources from the page
  counts as used, and so do the colour spaces that stand for device spaces.
- `subset/chained.rs`: the outline is a tree of linked chains, in the order of the source.
- `subset/closed.rs`, `subset/linked.rs`, `subset/whole.rs`: no reference leads nowhere, no orphan is
  written, and the page tree lists the chosen pages in order.
- `subset/paged.rs`: the file has one page for each choice, and no other, and one node over them.
- `subset/alike.rs`, `subset/dedup.rs`: objects are collapsed only where they are written alike, and no
  two are left that may be collapsed.
- `subset/denotes.rs`: after the collapsing and the numbering each reference denotes the copy of what
  it denoted in its source.
- `subset/counted.rs`: the outline entries and structure elements that are kept are counted.
- `subset/relinked.rs`: form fields and their kids point at each other.
- `subset/unsigned.rs`, `subset/whole.rs`: no signature dictionary is written.
- `subset/serialize.rs`: the cross-reference table points at the objects.

Of separations it is proved that a tint lies between none and all of the ink (`separation/color.rs`),
that an ink which could not appear on a page is not painted (`separation/unused.rs`), and that a plate
is the same whether it is rendered with the others or alone (`separation/mod.rs`).
