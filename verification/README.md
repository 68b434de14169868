# Glyde

Glyde opens a file of time series and draws it. This crate holds what it decides,
as executable Rust whose contracts are proved by Verus, and the program around it.

## Layout

- `src/` is the verified library.
  - `ingest/` goes from the bytes of a delimited text file to a typed table: the
    encoding, the delimiter, the decimal separator and the header are inferred,
    the rows are scanned, and the columns get the narrowest type that fits.
  - `time/` reads and writes timestamps exactly, infers their format, and finds
    gaps, steps backwards and the class of sampling.
  - `series/` holds columns in their own types and promotes them to binary64.
  - `dsp/` builds the min/max pyramid and decimates what is in view, so that no
    spike is ever lost.
  - `index/` is the layout of the cache and spill files.
  - `view/` is what the window shows, up to the drawing itself.
  - `budget.rs` is how much memory may be used.
- `tests/` runs the library on concrete files and values.
- `app/` is the window, the threads and the files. A table too large for the
  memory is kept by the library as the bytes of its spill files; `app/` writes
  those files.

## How values are modelled

Binary64 numbers are their bit patterns (`u64`), binary32 numbers likewise
(`u32`); comparing, rounding and promoting them is integer arithmetic with a
contract. Instants are integer ticks with a unit. Reading a number from text and
writing one is left to the program, which hands bit patterns to the library.

Public proof functions whose names begin with `law_` state what holds of the
library as a whole: that every sample in range lands in exactly one column of
pixels, that a pyramid is the same however it was built, that what is written to
a cache or spill file reads back, that neither storage nor the budget changes a
table, that progress does not change a parse, and more.

What is taken on trust is in the few functions marked
`#[verifier::external_body]`: calls into `chrono`, `csv`, `encoding_rs`,
`chardetng`, `sysinfo` and the standard library. Each says what it claims.
