# profcast

Profcast reads profiler output, converts it between formats and captures
profiles of running processes. Every format is read into one model and written
from it, so any input can become any output.

| format      | read | write |
|-------------|------|-------|
| folded      | yes  | yes   |
| pprof       | yes  | yes   |
| chrometrace | yes  | yes   |
| json        |      | yes   |
| speedscope  |      | yes   |

The library under `src/` is written in Verus. Each function states what it
returns over the mathematical view of its arguments; what relates several
functions stands as public `law_` proof functions, among them:

- every reader yields a valid profile, and every valid profile can be written in
  every format, as folded stacks if it has a value series;
- a profile survives being written as pprof, folded stacks or a Chrome trace and
  read again, as far as the format can hold it;
- the strongest match wins when a format is detected, the earliest registered
  among equals;
- every captured sample is counted, and every sampled address has a frame.

## Layout

- `model`, `format`, `registry`: profiles, the two format traits, detection.
- `folded`, `pprof`, `chrometrace`, `json_format`, `speedscope`: the formats.
  `wire` and `proto` hold the protobuf messages of pprof; `json` holds JSON
  values. `proto_faults` and `chrometrace_faults` find what is wrong with input
  that is refused.
- `transcode`, `listing`, `capi`: what the command line and the C interface do
  with them.
- `capture`, `ring`, `session`, `sampling`, `symbols`, `command_line`: capturing
  a process, from raw perf records to a profile.
- `app/` is the program: arguments, files, processes and system calls.
- `tests/` runs the library on concrete values.

Gzip, JSON text, object files, shell words and variable length integers are the
work of `flate2`, `serde_json`, `object`, `shlex` and `prost`. The few functions
that call them are marked `external_body` and say in their doc comments what is
taken from those crates without proof.
