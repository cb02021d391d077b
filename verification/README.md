# todui

A terminal todo list with lists, tags, daily lists, a focus timer, contexts
and optional sync, whose logic is a library verified with Verus.

- `src/` is the verified library: the Markdown list format (`storage`), the
  synchronised document and its queries (`crdt`, `doc_ops`), the application
  state and every operation on it (`app`), key bindings and their
  configuration (`config`), key handling (`input`), what the panes show
  (`display`), where new and reopened items land among the rows
  (`placement`), the Automerge history as far as loading, merging and
  comparing heads go (`history`), and the decisions of the sync connection
  and the login (`sync_transport`, `session`).
- `app/` is the program around it: the terminal, the files of the data
  directory, turning the Automerge history into the document and back
  (derive-based), the WebSocket thread and the login requests.
- `tests/` runs the library on concrete values.

Positions of items and lists are kept in half steps (`i64`); the program
stores them in whole steps in the Automerge document.
