# srcds_console

Runs a Source dedicated server in the terminal it was started from. The launcher loads
`dedicated.dll` from the game root and calls its `DedicatedMain` export. Before that it redirects
eight console functions that the module imports from `KERNEL32.dll`:

- `AllocConsole` and `FreeConsole` do nothing, so that no new console window appears.
- `WriteConsoleOutputCharacterA` and `WriteConsoleOutputAttribute` do not write to the screen. The
  text is kept and drawn as a status bar in the bottom row of the terminal.
- `SetConsoleCursorPosition`, `SetConsoleScreenBufferSize` and `SetConsoleWindowInfo` do nothing.
- `GetConsoleScreenBufferInfo` is passed on.

Other imports, such as `WriteConsoleW` and `WriteFile`, stay as they are.

Set `SRCDS_NO_STATUS` to `1` or `true` to turn the status bar off. Blanks around the value do not
count. On a terminal with fewer than three rows no bar is drawn.

## Layout

The library in `src/` is verified with Verus.

| Module | Content |
|--------|---------|
| `memory`, `names` | numbers and names in the bytes of a loaded module |
| `api` | the redirected functions |
| `imports` | the headers and the walk of the import tables |
| `install` | redirecting the imports, one answer of the system at a time |
| `sites`, `entries`, `reads`, `laws`, `cases` | what an installation does as a whole |
| `console`, `status` | the answers of the redirected functions, and the status bar |
| `terminal` | control sequences and what they do to the screen |
| `launch`, `text` | the steps of a launch and its messages |
| `paths` | the directory of a file, and files below a directory |

`app/` is the program: it makes the system calls and asks the library what to do.
