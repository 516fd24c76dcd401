# pybytes

The `bytes` type of a Python interpreter as a Verus-verified Rust library.

`PyBytes` holds an immutable sequence of bytes; its view is that sequence
(`Seq<u8>`). The operations of Python's `bytes` are methods whose contracts
state their results over the view, and Verus proves the code against them.
Printf-style formatting (`%`), which needs the interpreter's values, is not
part of the library.

Layout of `src/`:

- `bytes.rs`: the type, construction, length, comparison, concatenation,
  repetition, size and hash.
- `subscript.rs`: indexing and slicing with Python's bound rules.
- `search.rs`: `find`, `rfind`, `index`, `rindex`, `count`, `in`,
  `startswith`, `endswith`.
- `ctype.rs`: the ASCII class predicates (`isalnum`, ..., `istitle`) and case
  mappings (`lower`, `upper`, `swapcase`, `capitalize`, `title`).
- `transform.rs`: `strip` and its variants, `translate`, `maketrans`, `join`,
  `replace`.
- `split.rs`: `split`, `rsplit`, `splitlines`, `partition`, `rpartition`.
- `pad.rs`: `ljust`, `rjust`, `center`, `zfill`, `expandtabs`.
- `hex.rs`: `hex`, `fromhex`, `repr`.
- `codec.rs`: the constructor `bytes(...)` and `decode`, for UTF-8 and ASCII.
- `iter.rs`: the iterator, whose position lives in a crossbeam `AtomicCell`.
- `text.rs`: string helpers.
- `laws.rs`, `split_laws.rs`: properties that relate the operations (order
  laws, round trips, `join` undoing `split`, `rsplit` agreeing with `split`,
  and more).
- `error.rs`: the errors and the Python exception classes they belong to.

`app/` holds what an interpreter needs around the library: the messages of the
errors and the standard error traits.
