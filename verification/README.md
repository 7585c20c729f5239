# consultas_csv

The query-parsing core of a small SQL-over-CSV tool, written in Verus.

- `src/texto.rs`: character-level text operations (whitespace, words, tokens,
  joining, splitting, trimming, replacing) as spec functions, each with an
  executable counterpart proved equal to it.
- `src/manejo_de_string.rs`: splitting `INSERT`, `UPDATE`, `DELETE` and `SELECT`
  queries into their parts, separating `ORDER BY`, and building the rows of a
  multi-row `INSERT`.
- `src/consultas/select.rs`: the computing steps of a `SELECT`: parsing, sorting
  the result rows by a column, choosing the shown columns and projecting rows.
- `src/leyes.rs`: properties of the tokenizer stated and proved for all inputs.
- `src/errors.rs`: the error type.

Column lookups in the table header and the per-value type checks read the CSV
files; the functions that need them take them as closures.
