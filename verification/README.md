# nano-downloader

A small HTTP downloader whose logic is verified with Verus.

- `src/` — the verified library:
  - `decimal`: reading and writing `u64` in decimal (as `u64::from_str` and `to_string` do);
  - `text`: whitespace trimming and character/string conversions;
  - `http`: the HEAD and ranged GET requests, the `Range` header value, reading
    `Content-Length` from a response or a header value, and where a response body starts;
  - `plan`: cutting a download into one share per worker, or into 1 MiB chunks;
  - `progress`: bytes received per part and in total;
  - `url`: reading a typed URL and taking the file name of a path;
  - `stress`: how a load test shares its requests and classifies answers;
  - `window`: the decision of the window's event loop.
- `app/` — the programs around it: TCP and `reqwest` I/O, threads and `tokio`
  tasks, files, the `winit` window and the `pyo3` module. The program downloads
  with threads over TCP; given `window` as its first argument it opens the window.
- `tests/` — tests of the library on concrete inputs.
