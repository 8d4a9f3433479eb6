# hyperfetch

A segmented HTTP downloader whose decision logic is a Verus-verified
library.

- `src/` is the library. Its functions carry contracts that Verus proves,
  and cover: splitting a download into byte ranges (`chunks`), handing ranges
  out to workers with bounded retries (a chunk is held by one worker at a
  time and tried again only after a failed attempt), choosing between a
  resumed, single-stream or segmented download (`planner`), the record kept
  beside a segmented download so that it can be taken up again (`record`),
  building `Range` headers,
  parsing sizes such as `1.5M` and rendering byte counts and durations
  (`utils`, with the decimal and rounding arithmetic in `decimal`, `literal`
  and `rounding`), user-supplied headers (`headers`), the configuration that
  the command line produces (`cli`, `models`) and the speed sample window
  (`progress`).
- `app/` is the program around it: argument parsing, the network and file
  I/O, the async workers, the progress bar and file-type detection.
- `tests/` runs the library on concrete values.

Calls into `url` and `reqwest` (`http`) stand behind small trusted wrappers
whose doc comments say what each one is assumed to do.
