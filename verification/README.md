# sync-folder

`sync-folder A B` makes the folder B like the folder A. Files that only changed their place
are moved inside B, files that B lacks are copied from A, and what does not belong in B any
more goes to a folder `_trash_<timestamp>` in B.

The library under `src/` decides what to do and is verified with Verus; `app/` walks the
folders, asks the user and performs the operations.

- `text`, `paths`: characters, decimal numbers, the order of paths, file names, the trash folder
- `index`: the files of a folder, by path and by name and size
- `plan`, `plan_laws`: comparing two folders, and what holds of every plan
- `execute`, `replay`: carrying out a plan step by step, and what that does to the files
- `display`, `paint`: the lines that a run shows, and their colours
- `size`, `calendar`, `timestamp`, `answer`: sizes, dates, timestamps and the user's answer

What the laws in `replay` say of a run: afterwards B has the paths and sizes of A, and every
moved file is at its new path; wherever the run is cut short, no file of B is lost, each is in
B or in the trash. They speak of files known by their paths, where no file stands where the path
of another needs a folder, and where operations fail only for want of their file. A second
pass over the files to trash changes nothing.
