# shwoop

A development server for static web content with hot reload: it serves a
directory (or a single file), watches it and optional source directories,
runs a build command when sources change, and tells connected browsers to
reload.

The library in `src/` holds the logic, verified with Verus:

- `calendar`: day numbers to civil dates, proved against a day-by-day
  definition of the Gregorian calendar.
- `listing`: directory listing pages (entry order, escaping, percent-encoding,
  sizes and dates).
- `handler`: request classification (browser, websocket, page paths, HTML
  responses), error pages and injection of the reload client into HTML.
- `inject`: the middleware's request and response plans.
- `reloader`: the debouncing build/reload state machine and its laws.
- `watcher`: filtering file system events and deciding between reload and
  build.
- `websocket`: client messages and the bookkeeping of a broadcast.
- `run`, `args`, `util`, `text`: server setup, log levels, thread names and
  string building blocks.

`app/` is the program around it: command line, HTTP server, websocket
sessions, file watching, processes and logging.
