# vector_benchmark_support

Support code for a nearest-neighbour benchmark over the SIFT1M corpus, written and proved
in Verus, and the selection of the course's tests.

- `src/` is the verified library.
  - `cli`, `mode`: what the command line asks for, and how much of the corpus a run takes.
  - `error`: why a run or a file is refused, with the messages for the user.
  - `io`: byte writers, known by the calls they get, and byte readers, known by their history.
  - `records`, `encoding`: the `fvecs` and `ivecs` files, reading them, and the laws that
    tie reading to what was written.
  - `opener`, `corpus`: what opens files, and the three files of the corpus, from opening
    to the finished workload.
  - `progress`: best-effort progress in five milestones per stage.
  - `search`, `clock`, `runner`: the searches under measurement, the stopwatch, and the
    balanced measurement loop, which starts the stopwatch right before a timed search,
    stops it right after, and shows no progress in between.
  - `quality`: first hits, overlap at 100 and nearest-rank percentiles.
  - `selector`: which tests a selector names, and the arguments that Cargo gets for them.
  - `text`: numerals and the few string operations the other modules share.
- `app/` is ordinary Rust around it: the test command, files on disk, standard error, and
  floating point numbers.
- `tests/` runs the library.

Vector components stand in the library by their IEEE 754 bit patterns, and shares by
hundredths. `app/` turns them into floating point numbers.
