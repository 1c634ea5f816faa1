# desktop_tui

The logic of a transparent terminal canvas for the Plasma desktop, verified
with Verus. The library in `src/` holds what the renderer and the command
supervisor decide; `app/` is the program around it: reading the environment
and files, spawning commands, drawing with ratatui, and the floating-point
model settings.

- `ansi`: the stream optimizer that drops redundant background resets.
- `frame`: terminal colours, the grouped draw plan, and the double-buffered
  shared frame.
- `command`: command-canvas settings, errors, and the supervisor's decisions.
- `template`: widget templates, section filtering, model paths, bounds.
- `theme`: KDE colour schemes (INI) and the theme read from them.
- `sysinfo`: system-information rows sorted into groups.
- `layout`: the content area, the information column and its lines.
- `runtime`: renderer flags, grid and texture sizes, the frame-rate window.
- `path`, `text`: path components and character-level text helpers.
