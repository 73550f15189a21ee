# galaxy-systrkr

A COSMIC panel applet that draws CPU, GPU, RAM and network sparklines and
shows system details in a popup.

- `src/` is the verified library: the sample history (`history`), the
  configuration arithmetic (`config`), the update decisions (`app`), the
  settings choices (`settings`), text primitives with the exact meaning of
  the `str` methods the parsers use (`text`), and the sampling logic in
  `sampler`: DRM card discovery and AMD/Intel backend probing over a model
  of `/sys/class/drm`, fdinfo parsing and per-process aggregation, NVML
  process ranking, and network interface filtering.
- `app/` is the applet around it: the cosmic application, drawing, and the
  reads of `/proc`, `/sys`, NVML and sysinfo whose results it hands to the
  library. Float computations (percentages, rates, display rounding) stay
  there.
- `tests/` exercises the library on concrete values.
