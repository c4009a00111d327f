# sc2dsu

A Cemuhook DSU server for the 2015 and 2026 Steam Controllers, with its
protocol and decision logic verified by Verus.

- `src/` is the verified library:
  - `bytes` little-endian encoding helpers;
  - `config` the configuration, slot preferences and the live-config counter;
  - `dsu` DSU packets, CRC framing, request parsing, the subscriber table and
    the per-slot book of the server;
  - `triton` product ids, controller identity, feature-report framing,
    Triton report parsing and input decoding; `triton::steam` the 2015
    controller's Bluetooth reassembly and report decoding;
  - `controllers` command-line mode, DSU slot routing, read health of open
    controllers and the back-off for interfaces that fail to open;
  - `stats` the per-slot status shown to the user.
- `app/` is the program around it: configuration file, HID access, the UDP
  socket, worker threads and the floating-point motion handling.
- `tests/` exercises the library.

Not in this build: the settings window, tray icon, autostart entry and live
status panels (no desktop toolkit is linked, so `--gui` and `--tray` run the
server headless), and automatic gyro-bias calibration with its recenter and
recalibrate requests.
