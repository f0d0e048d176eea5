# zhtta

A small web server whose decisions are verified with Verus.

The library in `src/` holds everything the server decides, each function with
a contract:

- `bytes`: byte-string operations (split, replace, decimal and hexadecimal digits).
- `addr`: peer addresses and their text forms.
- `path`: the path of a request line, path normalization, extensions.
- `pages`: the fixed texts and the error, counter and usage pages.
- `dynamic`: `.shtml` pages and their `#exec` tags.
- `assoc`, `cache`: keyed lists and the least-recently-used file cache.
- `args`: the command line.
- `server`: the server state and its step from an event to an action.
- `laws`: properties that span several steps.

`app/main.rs` is the program: it reads the command line, listens on the
network, reads files, runs the gash shell, and reports each outcome to
`WebServer::run`, carrying out the action it returns.
