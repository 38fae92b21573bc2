# hooddl

A download accelerator: a file is cut into segments that are fetched over
separate connections, chunk by chunk, with HTTP range requests; progress is
saved so that an interrupted download can be resumed.

- `src/` is the verified library:
  - `text` — whitespace, trimming, splitting and line handling on characters;
  - `decimal` — rendering `u64` values and parsing them as `u64::from_str` does;
  - `progress` — segment records, the progress file (writing, reading back) and
    the manager that keeps it current;
  - `segment` — download settings, the segment downloader and the decisions of
    a segment's transfer (chunks, range headers, retries, progress);
  - `plan` — server checks, cutting a file into segments, resuming, completion;
  - `filename` — choosing the file name from `Content-Disposition` or the URL.
- `app/` is the command-line program: argument parsing, HTTP, files, tasks and
  progress bars, driving the library's decisions.
- `tests/` exercises the library on concrete values.
