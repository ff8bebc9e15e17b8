# usbfwd

Forward a USB device, such as a game controller, from one machine to another over
USB/IP: an exporter that needs no kernel module, a daemon that keeps the device
attached on the other side, and a bridge for Android.

`src/` is the library. It holds everything that is decided: the wire format, the
parsing of descriptors and of sysfs, what a request comes to on usbfs, the URB pump
with its prefetch buffers and toggle chord, mDNS packets, the configuration file and
the attach daemon's rounds. It does no I/O. Every function in it has a contract, and
Verus proves the code against it.

| Module | What it is |
|---|---|
| `text` | Text as sequences of characters: numerals, trimming, splitting. |
| `errno` | The error numbers and poll flags that decide what happens next. |
| `proto` | USB/IP 1.1.1: messages, device records, framing on a stream. |
| `backend` | USB devices on usbfs: descriptors, enumeration, claiming, URBs, `hidraw`. |
| `common` | Log levels, interface addresses, signals, mDNS packets. |
| `server` | The exporter: imports, sessions, prefetching, the toggle chord. |
| `attach` | The daemon: configuration, vhci ports, servers and their backoff. |
| `bridge` | What starting and stopping an exporter from an Android app decides. |

Laws that span several functions are public proof functions beside the code that they
speak of. `server::ledger` holds the longest: over a whole session with its device, no
submit is lost and none is answered twice. It is proved of an account of the submits on
their way, and each round of calls on the session and the device is shown to be a step
of that account.

Where the library calls into `libc` or into parts of std that Verus does not know, the
call stands in a small function of its own, whose doc comment says what is taken for
granted.

`app/` is ordinary Rust around the library: sockets, ioctls, threads, signals and the
command lines. `tests/` runs the library.
