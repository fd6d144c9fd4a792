# nextion-tft-toolkit

Decode and patch Nextion `.HMI` project files and compiled `.tft` firmware
for the NX8048P050-011R-Y display, with the library's behaviour stated in
Verus contracts and proved.

## Layout

- `src/` — the verified library.
  - `hmi` — locating the payload of a `.HMI` flash image, scanning
    attribute records, grouping them into pages and components, selecting
    and patching one attribute in place. `hmi::readback` proves that a
    patch writes the record's value bytes only, and that it reads back:
    decoding the patched file gives the same structure with the written
    value, provided no 16 of the written bytes read as an attribute name,
    the payload keeps its start, and no page opener or object name changes.
    `hmi::shape` proves that every component and page begins with the
    `type` record that opened it, and that records lie in file order.
  - `tft` — the `.tft` header, text-pool and geometry patches by unique
    byte-pattern search, colour/font fields of located records.
  - `spec` — the UI spec and the `compile` pipeline, modelled as a fold
    over the spec's components; a spec that asks for nothing new leaves the
    file unchanged.
  - `zi` — `.zi` font containers and glyph run-length coding; packing then
    unpacking gives the pixels back.
  - `html` — the static layout preview.
  - `target`, `layout`, `error`, `args`, `strings` — the one supported
    display, record layouts, error values, argument parsing and text helpers.
- `tests/` — tests on synthetic files.
- `app/` — the `nxtft` command-line front end: argument parsing, file I/O,
  YAML reading and writing, error display.
