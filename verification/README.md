# yamldb

A small database of records kept in a YAML file, with a command line, a web
UI and an ODBC-style driver interface.

- `src/` is the library, written in Verus: records and their values, the
  in-memory store with its queries and searches, the SQL subset the driver
  reads, the driver's handle state, table resolution in a source directory,
  request routing of the web UI, and the parsing of command-line fields.
  Each public function carries a contract that Verus proves; `src/laws.rs`
  states and proves properties that relate several operations.
- `app/` is the program around it: argument parsing, the files read and
  written through `yq`, the HTTP server and the C entry points of the driver.
- `tests/` exercises the library on concrete values.
