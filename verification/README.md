# uwhat

A human-friendly USB device lister: a tree of the physical USB controllers
(companion USB 2.0 / USB 3.x buses merged into one controller), the devices
on their ports, their speeds, throttling hints and drivers; or a flat list;
or JSON.

## Layout

- `src/` — the library, verified with Verus. Every public function states
  its result in its contract; the laws of the library are public proof
  functions.
  - `text` — character-level helpers (trimming, searching, number parsing
    and formatting) with their specifications.
  - `device` — the device model, sanitizing of device-supplied strings,
    port names, display names, the peer map.
  - `usb_ids`, `usb_class` — the `usb.ids` database and class/speed names.
  - `sysfs`, `macos` — what the platform data means: sysfs attribute files
    on Linux, the JSON report of `system_profiler` on macOS.
  - `topology` — the merged physical tree; `union_find` and `sort` support it.
  - `query`, `listing` — filters and what a listing shows.
  - `display`, `record` — the text lines and the JSON records.
- `app/` — the command line program: arguments, reading sysfs or running
  `system_profiler`, printing.
- `tests/` — tests of the library.
