# xl_diff

`xl_diff` compares spreadsheet workbooks cell by cell: values, formulas and cell
formats, across all sheets, with inserted, deleted and moved rows and renamed
sheets taken into account.

The library under `src/` is written in Verus: every function states what it
returns in its contract, and the contracts are proved.

| Module | What it holds |
| --- | --- |
| `text` | white space, decimal numbers, letter case |
| `cell` | cell values, their texts, and when two are equal |
| `style` | cell formats and how two of them differ |
| `reference` | column letters and cell references |
| `grid` | rows of cells: blank ends, room for a cell, size limits |
| `xml` | documents as plain events, on top of `quick-xml` |
| `sheet_xml`, `styles_xml`, `targets` | style numbers, style catalogs and sheet paths, read from events |
| `fingerprint` | fingerprints of rows and sheets, on top of `blake3` and `hex` |
| `lcs`, `align` | which row belongs to which, by key or by longest common subsequence |
| `delta` | what became of each cell; rows are compared in parallel with `rayon` |
| `compare` | the comparison of two sheets as a whole |
| `plan`, `rename`, `report` | which sheets are compared, which are renamed, and the report |
| `settings` | limits and their defaults |

Functions whose name begins with `law_` state and prove properties of the library
as a whole, such as that a sheet does not differ from itself, that an alignment
speaks of every row, or that the counts of a report add up.

Functions marked `#[verifier::external_body]` do no more than call another crate or
the standard library and convert what goes in and comes out. Their contracts are taken on trust; their comments say
what is claimed.

`app/` is the Python extension module around the library: it reads the files,
compares floating-point numbers, and turns results into Python classes and JSON.
Floating-point numbers enter the library as their shortest decimal text, and
whether two of them are close is answered by a function that the caller passes in.
