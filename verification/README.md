# nnd terminal UI core, verified

The terminal user-interface building blocks of the nnd debugger, written in Verus with
their behaviour stated as contracts and proved:

- `common_ui`: rectangles, colors, style flags, style adjustments and their SGR codes.
- `utf8_text`, `text_width`: UTF-8 facts and the width of text on screen (grapheme
  clusters from `unicode-segmentation`, widths from `unicode-width`).
- `styled_text`: multi-line text made of styled spans; importing, splitting at newlines,
  line wrapping with indicators, style adjustments of byte ranges.
- `keys`, `input`: keys and their names, and the decoder of terminal input bytes
  (characters, UTF-8, ANSI escape sequences, mouse and focus events).
- `screen`, `terminal`: the screen buffer and the commands that bring the terminal from
  the previous frame to the next one.
- `key_binds`, `text_scan`: key maps, the default key bindings and the key binding
  configuration file.
- `settings`: session names, the color palette, the debuginfod server list.
- `syntax`: tree-sitter highlighting merged into styled text.

`app/` holds what talks to the operating system: raw mode, the terminal size, reading
stdin, writing frames, the environment, and the settings that hold a floating-point value.
