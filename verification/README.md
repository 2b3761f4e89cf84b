# rkvm

rkvm shares a keyboard and a mouse across Linux machines. One machine runs the server. It owns the
keyboard and the mouse and relays what is done with them to the clients; a key combination decides
which machine receives the input.

This crate is the logic of it, written in Verus: executable Rust with contracts that are proved.

## Layout

| Place | What it holds |
| --- | --- |
| `src/state.rs` | The state of the server as a mathematical value, and how it changes |
| `src/server.rs` | The server: clients, devices, switching, what becomes of each event |
| `src/laws.rs` | What can be relied on, whatever happens to the server |
| `src/shortcut.rs` | Key combinations, as they are configured |
| `src/slots.rs` | Numbered slots for clients and devices, in a slab |
| `src/action.rs`, `src/update.rs` | What the server has done, and what clients are told |
| `src/client.rs`, `src/device.rs`, `src/event.rs` | Machines, input devices and their events |
| `src/handshake.rs` | What a client has to prove, and the conversation that follows |
| `src/watch.rs` | How one device is watched |
| `src/message.rs` | Messages on the wire |
| `src/clipboard.rs`, `src/shell.rs` | Sharing the clipboard, and the commands for the shell |
| `src/session.rs`, `src/notify.rs`, `src/leds.rs` | Desktop sessions, popups, caps lock lights |
| `src/reconnect.rs`, `src/config_file.rs` | Delays between connections, the mode of the configuration file |
| `src/error.rs`, `src/text.rs` | What makes the server give up, and operations on text |
| `tests/` | Tests on concrete values |
| `app/` | The program around the library: sockets, TLS, libevdev, processes, configuration |

## What is worth knowing

- Machines are numbered. The server is 0, and the client in slot `n` is `n + 1`. Moving on goes to
  the next number that is taken, and after the last one back to the server.
- Of the combinations that are held completely, the one with the most keys counts, and the first
  that is configured among those.
- Where switch keys do not reach the machine that is being controlled, they are held back until it
  is known whether a combination will be completed. If it is, they are swallowed until all are
  released, and those that had got through before are released on the machine that control leaves.
- When the client that was being controlled is gone, control falls back to the server. That is a
  switch like any other: the command for switches runs, and the caps lock lights go off.
- A device that is plugged in while a client is being controlled has its light switched on.
- When a device is unplugged, what it held is forgotten. If nothing is held any more, a
  combination that was completed is over.
- Images are preferred over text when the clipboard holds both.
- A slot that was left is the next one to be used.
- A ping that is due goes before anything else that a client is to be told.
- Nothing that a client is to be told is dropped: what it has no room for yet stays due.
- A payload that can be written as a message is never refused as too large when it is read.

## Trust

What the library takes on trust of other code stands beside its use: `slab` in `src/slots.rs`,
`bincode` in `src/message.rs`, and of the standard library the lossy conversion to text in
`src/clipboard.rs`, the kind and the text of an error of the operating system in `src/error.rs`,
and appending a character in `src/text.rs`.
