# MiXolume

A menu-bar utility with a volume slider for each application that makes sound. It can turn
the others down while an application that the user chose is talking, and on Windows it
routes single applications to an output device.

`src/` is the library: every rule of the program, with its contract, proved with Verus. It
knows no clock, no files and no audio interface; it is handed what was read of them, and
says what to show and what to do. The one thing that it asks the system itself is which
program a process runs.

| Modules | What they hold |
| --- | --- |
| `level`, `rounding`, `gain`, `mix`, `ring` | volumes and balances and their products, the part of each application in the mix, the buffer between capturing and playing |
| `duck_detect` | telling whether an application is talking |
| `session`, `mock` | sessions, settings, errors, and a backend for trying things out |
| `linux`, `linux_laws` | sessions from the output of `pactl` |
| `windows`, `windows_controls`, `windows_listing`, `windows_capture`, `windows_routing`, `grouping` and their laws | sessions of the Windows audio interfaces |
| `macos`, `macos_apps`, `macos_device`, `macos_listing`, `hidden`, `icons` and their laws | sessions from Core Audio process taps |
| `poll`, `window` | what is pushed to the user interface and when, and where its window goes |
| `name_map`, `order`, `text`, `seqs` | maps by name, sorting, text, and lemmas on sequences |

What holds of several functions together stands in public proof functions whose names begin
with `law_`.

`app/` is the program around the library: the window and tray icon, the operating systems'
audio interfaces, files, and everything that computes with samples. `tests/`
runs the library.
