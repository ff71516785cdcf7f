# tokimono

A terminal system monitor: per-core CPU sparklines, memory, and a process
table that can be sorted, filtered, shown flat, as a parent/child tree or
grouped by cgroup label, with kill and renice on the selected process.

The crate is split in two.

- `src/` is the library, written in Verus and verified: the process table
  (filter, stable sort, tree and group layouts), the application state
  machine that key presses and refreshes drive, the braille sparkline, the
  theme presets and the resolution of the configuration file, and the
  arithmetic and texts that the screen layout needs. Every public function
  states its result in its `ensures`; the `lemma_*` proof functions state
  the properties that hold across calls (selection validity, sort order,
  folding, the refresh history cap, and more).
- `app/` is the program around it: reading the configuration file and the
  environment, collecting metrics with sysinfo, the event loop on tokio and
  crossterm, and drawing with ratatui.

CPU figures are carried as integers in hundredths of a percent; the program
converts sysinfo's floating-point readings at the edge and formats decimals
only when drawing. sysinfo reports no cgroup labels or nice values, so the
collector leaves them unset: the grouped layout then lists every process
under the ungrouped label, and the NICE column shows `-`.
