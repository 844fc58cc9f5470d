# tpt_zero_text

Small building blocks for text and fixed-capacity data, written in Verus:
every function in `src/` carries a contract that Verus checks.

- `src/` — the library: fixed-capacity collections (`arrayvec`, `arraystring`,
  `ring`, `pool`, `linear_map`), codecs (`url_encode`, `xml_escape`, `utf8`,
  `color`), parsers and writers (`csv`, `json`, `json_tree`, `ini`, `toml`,
  `numstr`, `decimal`, `glob`, `slug`, `str_search`). Modules named
  `*_roundtrip` and `json_chunks` hold laws that span several functions, such
  as "reading back what the CSV writer wrote gives the rows written".
- `tests/` — tests on concrete values.
- `app/` — what stays outside the verified library: floating-point code
  (vectors, matrices, quaternions, float text), atomics and raw pointers
  (locks, channels, intrusive lists), and owned document types built on the
  verified parsers.
