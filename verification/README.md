# solution-x

Fraud detection by vector search: a transaction becomes a vector of fourteen components, and the
five closest labelled references decide whether it is approved.

## Layout

- `src/` is the library. Everything in it is verified by Verus.
  - `ivf` probes the closest clusters of an index and repairs the answer over the bounding boxes of
    the others, `ranking` picks the clusters, `index` is the file format, `codec` its words,
    `build_index` groups references into an index, `random` draws samples and warm-up queries.
  - `recall` states what a search can be relied on to find.
  - `vectorizer` lays out the features of a transaction, `timestamp` reads timestamps, `parser`
    reads a transaction out of a request body, `scan` searches bytes. `compact` states that a body
    written without blanks reads back, by way of `items`.
  - `server` understands requests and answers them, `exchange` states what a client is sent over a
    whole connection, `evaluate` compares searches with brute force.
- `app/` is the program around it: sockets, files, threads and floating point.
- `tests/` runs the library.

## Numbers

The library does no floating-point arithmetic. It says how each component is computed
(`vectorizer::Feature`), takes centroids as bit patterns, and orders distances by integer keys: the
bit patterns of numbers that are not negative order as the numbers do.

## Trust

Three outside functions are taken at their word: `memchr::memmem::find` in `scan`, and
`bytemuck::pod_read_unaligned` and `bytemuck::cast` in `codec`.

## Programs

    solution-x                                   serve over a Unix socket
    solution-x build_index <references> <index>  build an index file
    solution-x verify <index> <references> <test data> [queries]
