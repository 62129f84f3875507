# hyprlog

A time tracker for the Hyprland compositor. A daemon (`hyprlogd`) records every change
of the focused window, and the idle, resume, boot and shutdown events, in one CSV file
per UTC day (`timestamp,class,title`), and streams them to running viewers. The viewer
(`hyprlog`) shows, for a chosen span of days, a timeline of which class or title had the
focus, and tables of the time spent per class and per title.

## Layout

- `src/` is the library, verified with Verus: the model of logs, classes and titles and
  its invariant; reading the recorded events into logs; the intervals the viewer shows and
  the moves on them; which daily files to read; the timeline sections, the cache of
  rendered pieces and the characters and colours of the timeline; the tick row; the table
  rows and scrolling; the viewer's state machine (stream events, keys, mouse); and the
  command line.
- `tests/` runs the library on concrete values.
- `app/` is the program around it: the terminal interface (ratatui, crossterm), reading
  and writing the CSV files, the Unix sockets, and the daemon (Hyprland events, logind).
  Run under the name `hyprlogd` the program is the daemon.
