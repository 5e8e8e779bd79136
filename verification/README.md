# wpic

A terminal program for importing, culling, rating and backing up photos of a
camera card: shots are clustered into occasions by the gaps between their times,
reviewed and rated in a viewer, moved into a library and uploaded.

- `src/` is the library: what the program decides and computes, with contracts
  that Verus proves. It reads and writes no files and runs no programs.
- `app/` is the program around it: files, other programs, keys and the screen.
- `tests/` runs the library on concrete values.

The library in a few words:

| module | what it holds |
|--------|---------------|
| `text`, `number`, `calendar`, `order`, `sorting`, `paths` | text, numbers, dates, orders, paths |
| `exif`, `xmp` | the orientation of images, ratings in sidecars |
| `config`, `cli` | settings, the command line, listings |
| `files`, `occasion`, `grouping`, `naming` | media files and occasions |
| `plan`, `progress`, `worker`, `relocate` | the work on folders, step by step |
| `drive` | what rclone is asked and answers |
| `views`, `upright`, `review`, `session` | the viewer and what follows from a review |
| `state`, `screen`, `area` | keys, texts and places on the screen |

Outside work is done step by step: a state takes how the last step went and says
what to do next, and the program does it.
