# jesd84

Decodes an eMMC extended CSD register dump (JESD84-B51: 512 bytes written as
1024 hex digits) and looks up the register fields that a JSON field sheet
describes, each field by its CSD slice (`[hi:lo]` or `[n]`).

- `src/` is the library, verified with Verus: dump decoding
  (`jesd84_b51`), CSD slice texts (`csd_slice`), field sheets and their
  simplified configuration text (`sheet_orm`), field lookup (`out_dto`), the
  output table (`cli`), and the JSON form of a sheet (`json_sheet`).
- `app/` is the command-line program: argument parsing, file reading and
  writing, the serde forms of the sheet and of the looked-up fields, and
  printing the table.
- `tests/` runs the library on concrete inputs.
