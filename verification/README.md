# Veloce

A native Discord client. The library (`src/`) holds its logic, verified
with Verus; the program (`app/`) draws the egui window and does the
network, keyring and disk input and output around it.

## Library modules

- `models`, `events`, `commands`: the Discord objects, what the network
  reports to the interface and what the interface asks of it.
- `perms`: Discord's permission computation (base permissions, channel
  overwrites, `VIEW_CHANNEL`) and the visible channels of a guild.
- `channel_tree`: the channel list as Discord draws it, with the laws of
  its shape, completeness and order.
- `gateway_state`, `gateway`, `session`: the gateway protocol as a state
  machine, the events each dispatch produces, and the decisions of a
  connection (frames, reconnection delay, guild subscriptions).
- `rest`: how HTTP statuses and REST replies are read.
- `chat`: the chat screen's state, how each event changes it, and the
  interface's decisions (selection, sending the draft, labels).
- `markdown`, `emoji`, `timestamp`, `grouping`, `cdn`: message rendering
  helpers (the local display of a timestamp takes the time zone's offset
  as an argument).
- `plugins`: the plugin manager, the built-in plugins and the JSON text of
  the saved enabled states.
- `identity`, `fonts`, `text`: the client identity, the font fallback
  chains, and character-level helpers.

## Program

`app/` runs the egui window (`app.rs`), the network thread (`net.rs`,
`gateway.rs`, `rest.rs`), the JSON shapes (`wire.rs`), and stores the
enabled plugins (`plugin_store.rs`) and remote images (`imgcache.rs`).
Fonts are read from `assets/fonts` beside the executable.
