# adb_portscan

Finds the ADB wireless-debugging port of an Android device on the local network. Android 11+
picks a random port each time wireless debugging is switched on; this program sweeps the ports
of a device or a subnet, tells ADB ports from other open ports by two handshakes, and gives the
`adb connect` command to run. It also discovers devices by multicast DNS.

## Layout

- `src/` is the library, verified with [Verus](https://github.com/verus-lang/verus). It holds
  everything that is decided or computed, and neither opens a socket nor starts a thread nor
  draws.
  - `text`, `addr`: numbers, splitting, IP addresses and their textual forms
  - `target`, `error`: what to scan: addresses, zones, subnets up to /16, host names
  - `ports`, `threads`: the order of the ports, the number of threads
  - `detect`: the plaintext ADB and the TLS handshake
  - `mdns`: queries, replies and the services they describe
  - `scan`, `ranking`: the two passes of a scan as a state machine, the order of the hits
  - `cli`: the command line
  - `gui`: the state of the floating window
- `tests/` runs the library.
- `app/` is the program around it: sockets, threads, the process and the window (`eframe`).

## Reading the contracts

Each type with texts or lists in it has a model (`Target` has `TargetModel`), which is its view.
The `ensures` of a function says what it returns over these models, mostly by a spec function
of its own: `parse_targets` returns what `targets_of` says, `Scan::settle` leads to the state
that `settled` says. Functions named `law_...` state what holds across functions, for example
that the text of an address reads back as that address, that a scan which stops at the first
ADB port never reports two, or that the scan a command line is filled in as is the scan it
means.
