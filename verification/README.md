# localhost

A single-threaded, non-blocking HTTP/1.1 server for Linux. The library under `src/` holds
everything the server decides: it parses configurations and requests, chooses servers and
locations, plans the work that answers a request, keeps sessions, and follows connections and CGI
scripts from event to event. It is verified with Verus, but for three small wrappers around calls
of the standard library. The program under `app/` performs the input and output: sockets and
`epoll`, files, processes and the clock.

| Module | What it is about |
| --- | --- |
| `text`, `number`, `date`, `addr` | texts, numbers, dates and socket addresses |
| `util`, `params` | URL and file system paths, escaping, cookies and queries |
| `config` | server blocks, locations, and the choice of a location |
| `entries`, `headers`, `chunk`, `http`, `wire` | requests and the incremental parser |
| `response`, `reply` | responses and error pages |
| `multipart`, `listing`, `handler` | uploads, directory listings, and the steps of a request |
| `session` | sessions in memory |
| `cgi` | scripts: variables, exchange, output |
| `dispatch`, `client`, `server`, `token` | virtual hosts, connections, and the state between events |

What holds of the library as a whole is stated by the proof functions whose names start with
`law_`.

What is trusted: the contracts of four items of the standard library. They are declared in `text`
(`String::push`, and wrappers for `std::str::from_utf8` and `String::from_utf8_lossy`) and in `util`
(a wrapper for the system clock, of which nothing is stated).

    localhost [-c|--config FILE] [--check-config]
