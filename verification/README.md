# rinha_backend_v2

A fraud-scoring HTTP service whose core is verified with Verus.

- `src/` is the verified library:
  - `time`: UTC timestamp parsing (`YYYY-MM-DDTHH:MM:SSZ`) into hour, weekday and epoch seconds.
  - `distance`, `nearest`, `index`: squared distances of quantized vectors and the
    five-nearest-neighbour decision, by full scan, by a scan pruned on a sorted coordinate,
    over column-major data and over a kd-tree; all proved to give the full scan's answer.
  - `classifier`: byte-level scanning of a request body for the fields the fast path needs.
  - `vectorize`: the timing features and the merchant check of the fraud vector.
  - `binary_index`: the index file format — header parsing, reading, building the kd-tree
    and writing; what is written reads back as a searchable index of the same references.
  - `http`: request routing, `Content-Length` framing and the response bytes.
- `app/` holds the server loop, file and network I/O, JSON deserialization and the
  floating-point parts of vectorization and classification.
- `tests/` exercises the library on concrete values.
