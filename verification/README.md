# diskmap

A disk space explorer for Windows volumes: the size and the date of folders and files,
sortable, with a tree, a search, and a careful deletion. The library under `src/` is
verified with Verus; the program under `app/` lists folders, calls the system and talks to
the browser.

## Layout

- `records`, `aggregate`, `links`, `snapshot`: the index of a volume, the totals of every
  subtree, the children of every folder, the search.
- `walk`: what a walk of a volume records, folder by folder.
- `cache`, `le`: the index as bytes, and back.
- `path`, `split`, `text`, `table`: texts, paths, small tables.
- `order`, `listing`: rows in order, pages, search results, unreadable folders.
- `http`, `refusal`: requests, who may ask, routes, answers.
- `protect`, `delete`: what is never deleted; the dry run, its token, the deletion, the
  journal.
- `win32`, `clock`: what the answers of the system mean; the recycle bin.
- `explorer`, `launch`: the volumes and the queue of walks; the command line.
- `laws`: what holds of the parts taken together.

Sizes are added modulo 2 to the power 64, and the contracts say so.

What is trusted: `String::push`, `str::to_lowercase`, `str::to_uppercase`,
`String::from_utf8_lossy`, `String::from_utf16_lossy`, `String::from_utf16` (all in `text`)
and `Arc::clone` (in `explorer`).
