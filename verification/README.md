# panscan

Finds payment card numbers (PANs) on disk and reports them, masked, in a CSV file. The logic is a
Verus library: what every function returns is stated in its contract and proved. The program
around it walks the disk, reads files and writes the report.

## How a number is found

1. **Detect.** `detect` proposes every chain of 14 to 16 digits, joined by single separators
   (`-`, space, `.`), that passes the Luhn check and has a boundary on both sides.
2. **Score.** `signals` looks at the bytes around a proposal: how many are digits, how often each
   byte value occurs, how near a card word is. `scheme` and `grouping` look at the number itself.
3. **Classify.** `classify` rejects the proposal with a reason, or accepts it with a confidence.

`scan` runs the three on one buffer and reports each number once. `files` keeps each path once, in
order, and `report` writes the lines, by path and offset; `mask` hides the middle of the numbers.

## Layout

| Module | Content |
|---|---|
| `bytes`, `luhn`, `scheme`, `grouping` | digits, boundaries, checksum, issuers, groups |
| `detect`, `signals`, `classify`, `dedup`, `scan` | from bytes to hits |
| `order`, `files`, `mask`, `csv_line`, `report`, `stamp` | from hits to a report and its name |
| `targets`, `walk`, `plan` | where to look, what to leave out, how a run goes |
| `debug`, `count`, `text` | messages |

- `src/` is the library. Its public proof functions, named `law_..`, state what holds of it as a
  whole: that detection misses nothing and proposes nothing else, that no number is reported
  twice, that a masked report tells nothing of the middle of a number, that the order in which
  files arrive does not matter.
- `tests/` runs it on concrete values.
- `app/` is the program. The Shannon entropy is computed there, in floating point, and handed to
  the library as the bits of a single-precision number.

What is believed and not proved is said above each function marked `external_body`: two
conversions between bytes and text and one to lower case of the standard library, the writing of a
CSV record by the `csv` crate, and the formatting of a date by the `chrono` crate.
