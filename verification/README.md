# rtsp-player

Desktop viewer for RTSP camera streams. Connections live in a tree of groups; opening one
puts it on a video wall that grows into a grid, and walls can be saved and laid out by hand.

`src/` is the verified library: everything the viewer decides, with contracts that
[Verus](https://github.com/verus-lang/verus) proves. `app/` is the program around it: the
window, the network, the decoders with their threads, and the config file.

| Module | What it holds |
|---|---|
| `id` | identifiers of groups, connections and walls |
| `connection`, `tree`, `walk`, `library` | the tree of connections and what is stored with it |
| `tree_laws` | what moving, inserting and removing keep |
| `prefs` | theme and layout |
| `grid`, `grid_laws` | saved walls: placing, removing, clamping |
| `wall`, `wall_laws` | what goes where on the wall |
| `sidebar`, `screen` | the rows of the tree, their menus, and what is shown around the pictures |
| `window`, `editing`, `forms`, `window_laws` | the state of the window and what each action changes |
| `yuv`, `decode` | what the decoders are fed, which picture is kept, and how it is drawn |
| `player`, `probe` | one stream's mailbox and status, and how a camera is checked |
| `session` | connecting, key frames, reconnecting |
| `text`, `platform` | status lines, trimming, WSL |

Calls into other crates stand behind small functions marked `external_body` in `id`,
`decode` and `session`; each says what it takes for granted.

## Run

Connections are stored in the platform config directory, in `library.yaml`;
`RTSP_PLAYER_CONFIG` names another file. Passwords in it are plain text.

`--probe <url> [username] [password]` checks a camera without the window, `--config` prints
where the library is, and `RTSP_PLAYER_DEBUG=1` traces what arrives on the wire.
