# tidyfile

A rule-driven file organizer whose logic is verified with Verus.

Rules made of conditions (extension, name, glob, regular expression, size,
age, subfolder) and actions (move, copy, rename, trash) are evaluated against
the facts of a file and turned into planned operations. Operations are
journaled as planned before they run and marked once they have run, a taken
destination is never overwritten, and a batch can be undone newest first.

Layout:

- `src/` — the verified library: text and path models (`text`, `pathname`,
  `listing`), rename templates (`templates`), folder policy (`paths`),
  temporary files and settled changes (`watcher`), rules and their
  evaluation (`rules`), the journal (`journal`), the executor (`executor`),
  reports and batch planning (`service`), settings, storage errors, watcher
  announcements and the error codes shown to the interface (`settings`,
  `store`, `watch`, `ipc`).
- `tests/` — tests of the library.
- `app/` — the command-line program around the library: JSON files, the
  SQLite journal store, filesystem work, the trash and folder watching. Its
  commands answer in JSON what a desktop window would ask for (simulate,
  organize, undo, folder status, activity); a graphical shell such as a
  Tauri window is not part of this crate, and can call the same library.

Which folders may be watched is judged for the platform the program runs
on: on Windows, drive and share prefixes (verbatim ones too), both
separators and the Windows system folders; elsewhere the Unix ones. The
paths of files are handed to the planner with `/` between components, which
Windows accepts as well. Paths that are not valid UTF-8 are reported and
left out of planning, since the library models a path as text.
