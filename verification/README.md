# UPulse

A control centre for an Ubuntu system: what it is doing, what fills its disks,
what is installed, what starts with it, where its packages come from, and what
waits to be updated.

`src/` is the library: everything that is decided or computed, verified with
Verus. It reads no file and starts no program. It takes what was read (the
output of `dpkg-query`, `systemctl` or `snap`, the text of a desktop file) and
says what is shown, what may be run, and what is refused.

| Modules | What they hold |
| --- | --- |
| `text`, `number`, `order` | strings as sequences of characters, numbers, stable sorting |
| `big`, `double`, `single`, `size`, `fill` | floating-point results computed exactly on integers |
| `log`, `view`, `util`, `theme` | transcripts, selections, two-click confirmation, paths, formats |
| `apps`, `kernels`, `cleanup`, `repos`, `startup`, `updates` | the tabs that change the system |
| `scan`, `system`, `metrics`, `shell` | the file scan, system information, live figures, the window |

Functions named `law_…` state what holds of several functions together: that
the running kernel cannot be removed, that a protected package is never handed
to `apt`, that nothing outside the scanned directory is deleted, that a failed
check is never called good news.

`app/` is the program around the library: it reads, runs and draws. What it runs
with administrator rights, the library has composed or checked.

`tests/` runs the library on captured output and compares its arithmetic with
the machine's floating point.
