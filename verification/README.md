# sgp4

Parsing of general perturbations orbital data in the Two-Line Element Set
(TLE) format, verified with Verus.

- `src/` is the verified library. `Elements::from_tle` checks the layout of
  both lines, the catalog numbers, the checksums and the classification, and
  reads every field: integers as integers, names and designators as text, and
  each real number as the exact decimal text that the TLE writes for it, with
  the implied decimal point put back, checked against the syntax that
  `str::parse::<f64>` accepts. `parse_2les` and `parse_3les` split a
  text into lines as `str::lines` does and read each pair or triplet.
  `j2000_days` is the day count of the J2000 epoch expression. The contracts
  state each result and each error message exactly; the proof functions named
  `lemma_*` state the laws that hold across calls.
- `app/` turns the decimal texts into `f64`, builds the `chrono` timestamp,
  refuses a day of the year outside its year, computes the epoch and the
  sidereal time in floating point, and carries the
  `serde` form of the elements for OMM documents.
- `tests/` runs the library on sample TLEs.
