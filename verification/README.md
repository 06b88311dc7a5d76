# mig

Mig reviews two revisions of a source file with syntax in mind. The library is verified with
Verus: its contracts say what is paired, which rows a review shows, and how they are marked.

The pipeline, one module for each step:

- `source`, `text`, `span`: the text of a revision, its lines and its bytes.
- `grammar`: the boundary to the parser crates. A parsed tree comes out as plain preorder entries.
- `frontend`, `syntax`: one arena of nodes per revision, laid out from those entries with the
  decisions that each language makes. Where one revision does not parse, both fall back to lines.
- `alignment`: order-preserving and order-free matchings of equal values.
- `correspondence`: which units, children, leaves and lines of the two revisions belong together.
- `plan`, `context`, `change`, `review`: the hunks of a review in source coordinates, in the order
  in which they are read.
- `presentation`: styled rows for a terminal.
- `diff`, `entry`: the review of one file, and of a list of files.

`app/` holds the command line, the file and Git access and the printing.
