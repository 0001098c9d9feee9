# feather-fences

Fences for the Windows desktop: small translucent windows that show folders, settle on a grid without
overlapping, collect downloads once they are complete, and keep files in order by their extension.

- `src/` is the library: the state of the program and everything that is decided or computed about it,
  written in Verus with its behaviour stated in contracts and proved. Operations append what they ask of
  the window system to a list of effects.
- `app/` is the program around it: it reads and writes files, talks to Windows, hands the library what the
  system reports, and carries out the effects. Only `app/win32.rs`, `app/gdi.rs` and `app/watch.rs` need
  Windows.
- `tests/` runs the library, and compares its exact arithmetic with that of the machine.

| Module | What it holds |
| --- | --- |
| `float`, `precision`, `order`, `bits` | single and double precision on integers, how accurate it is and how it keeps order |
| `geometry` | lengths on a display, the grid, magnets, overlaps |
| `config` | the saved configuration, its defaults and its migration |
| `fence`, `refresh`, `text`, `paths` | a fence with its entries and pages, its refresh, names and sets of paths |
| `state`, `layout`, `lifecycle`, `visibility` | the whole state, where fences settle, how they come and go, what is shown |
| `downloads` | downloads, sweeping and dropped files |
| `message`, `window`, `mouse`, `menu`, `dialog` | what windows, the mouse, menus and the prompt do |
| `animation` | how pages move |
| `opacity`, `paint` | what a fence looks like |
