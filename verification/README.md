# metrics

Parsers and delta arithmetic for the Linux system metrics of a desktop
dashboard, verified with Verus.

- `src/` is the verified library. Each parser takes the text of a `/proc` or
  `/sys` file and returns exactly what a spec model of that text says:
  `/proc/stat`, `/proc/diskstats`, `/proc/net/dev`, `/proc/meminfo`,
  `/proc/[pid]/{stat,cmdline,status}`, `/etc/passwd`, `/proc/cpuinfo`,
  `/etc/os-release`, `/proc/mounts`, the AMD GPU files under
  `/sys/class/drm/card*/device/`, and the battery files under
  `/sys/class/power_supply/`. The growth of cumulative counters between two
  polls is computed with saturating arithmetic. Before the first reading,
  the growth is zero.
- `app/` is the unverified shell around the library. It reads the files,
  turns counter growth into floating-point rates, and serves the Tauri
  commands `get_stats`, `get_static_info` and `get_battery`.
- `tests/` runs the library on concrete inputs.
