# ini

A verified library for INI documents: sections (named ones and an unnamed
general section) holding key/value properties, a reader from INI text and a
writer back to it.

The functions in `src/` are verified with Verus against their contracts, with
three exceptions that are trusted rather than verified: the small wrappers
around `String::push` and `char::from_u32`, and the one that formats a
character with `{:?}` for an error message (its result is only named, not
stated). `src/laws.rs` and `src/round_trip.rs` prove what holds across the
operations: among others, that reading a key gives back what was set, that a
document never names a section twice nor a key twice within a section, and
that reading the text the writer writes gives the document back. That last
holds when every name, key and value has no white space at either end and no
vertical tab or form feed, no section name holds `]`, no key is empty or starts
with `[`, the general section (if any) and the last named section have at least
one key, and the document has at least one section.

- `src/` is the library; `tests/` runs it.
- `app/` reads and writes files and streams around it.
