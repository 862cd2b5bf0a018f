# aurora_layout

Verified pieces of a CSS layout engine, written in Verus:

- `src/numerals.rs`: positional, bijective, Roman, Greek and digit-table
  numerals, with the laws that reading the digits back gives the number.
- `src/counter_style.rs`: the text a counter style gives a counter value or a
  list marker, and what a `::marker` is made of.
- `src/counters.rs`: counter scopes, `counter-reset` / `counter-increment`,
  the `list-item` counter, and the walk in document order that snapshots the
  counters of every styled element; each element continues from the counters
  its preceding sibling left, and the counters it creates stay in force for
  its following siblings.
- `src/text_position.rs`: the UTF-16 offset of the character under a
  horizontal position in a run of shaped glyphs, and which fragment of a
  stacking-context tree, nested contexts included, is hit.
- `src/au.rs`, `src/std_text.rs`: the trusted contracts of the `app_units`
  arithmetic and of the few standard-library calls the library makes.

`app/` holds what stays outside the verified library: conversions from
computed style values, the floating-point geometry of hit testing, the
scrollbar painter, and the glue that loads marker images and renders
`counter()` / `counters()` text with the library's functions.
