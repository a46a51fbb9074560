# colibri_engine

The decisions of a mixture-of-experts inference engine, written in Verus: which
experts stay in memory, what the next step of a generation is, which keys a query
sees, how a checkpoint's tensors are named, encoded and laid out, and which work an
accelerator takes. Every function states what it returns, and Verus proves it.

- `src/` is the library. Values in floating point are taken by their bits where
  they are only ordered, copied or rounded.
- `tests/` runs it.
- `app/` is the engine around it: files, threads, environment switches and
  arithmetic in floating point. It calls the library and is not verified.
