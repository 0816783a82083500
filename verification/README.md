# mux_server

The core of a terminal multiplexer server, verified with Verus.

- `src/` is the library. It decides; it does no input or output of its own.
  - Layouts: `layout`, `layout_model`, `layout_laws`, `layout_persist`,
    `layout_messages`, `layout_refusals`, `layout_wire`, `ratio`.
  - Sessions and requests: `session`, `session_laws`, `registry`, `attach`,
    `pane_requests`, `pane_access`, `request_messages`, `protocol`,
    `connection_tasks`.
  - Panes and screens: `pane`, `osc`, `dec2026`, `coalescing`, `grid_sync`,
    `grid_wire`, `term_grid`, `term_snapshot`, `palette`, `pattern`,
    `shell_markers`, `viewports`, `pty`.
  - Saving sessions and getting them back: `persistence`, `recovery`.
  - Files: `file_access`, `file_pages`.
  - Extensions: `extension_install`, `extension_manager`, `extension_laws`,
    `extension_events`, `consent`, `host_bridge`, `host_answers`,
    `host_settings`, `json`, `json_documents`, `json_text`.
  - The process: `startup`, `server_settings`, `paths`, `cli`, `rt`.
  - Texts: `text`, `text_order`, `numbers`, `lines`, `unicode`.
- `app/` is the program around it: sockets, terminals, files, settings and the
  messages on the wire.
- `tests/` runs the library.

What is not proved is the behaviour of other crates. The functions that call
them stand in `term_grid`, `pattern`, `json_text` and `unicode`, and each says
what it takes for granted.
