# heretic

The core of a small Heretic engine, written in Verus and verified.

- `src/` is the verified library:
  - `wad`: reading WAD archives (header, directory, lumps) and looking lumps up by name;
  - `patch`, `vid`: patch pictures and the 320x200 palettised frame buffer they are drawn into;
  - `text`: text drawn with patch fonts;
  - `menu`, `screen`: the menus' state machine and the drawing of the menu screen;
  - `bytes`: little-endian numbers, read with `byteorder`.
- `app/` is the program around it: the `bevy` window, the keyboard and the WAD file.
- `tests/` runs the library on small archives built in memory.
