# localhost

A small HTTP/1.1 web server whose core is verified with Verus.

- `src/` — the verified library: the incremental request parser and
  response encoding (`http`), routing and static files (`router`), the
  decisions taken for each request (`server`), sessions (`session`),
  multipart uploads (`upload`), CGI environment and output (`cgi`),
  connection buffers (`conn`), the clock, tokens and dates (`util`), and
  laws about what the parsers give back for well-formed messages
  (`roundtrip`).
- `app/` — the program around it: configuration loading (JSON via serde),
  sockets and epoll, the file system and CGI processes.
- `tests/` — tests of the library on concrete values.

The server reads `localhost.json` from the working directory.
