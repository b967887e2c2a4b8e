# mirufm core

The logic of mirufm, a Miller-columns file explorer, as a Verus-verified
library, with the window and the I/O around it as a separate program.

- `src/` is the library. Each public function carries a contract that Verus
  proves: the column strip and its selection (`state`), the order of a
  listing (`sort`), file operations (`ops`, with the file system reached
  through the closures the caller passes), `.desktop` entries and launch
  commands (`launch`), git badges and their roll-up (`git`), the preview
  pane (`preview`), the order of background jobs (`scheduler`), and the
  window's key and clipboard rules (`commands`). Laws that span functions
  are public proof functions named `law_*`.
- `tests/` runs the library on concrete values.
- `app/` is the program: the gpui window, worker threads, directory
  watching, the git walk with gix, the trash, and the file system calls.

Paths are strings in the normal form that `Path::components` gives back,
and timestamps are signed nanoseconds since the UNIX epoch.
