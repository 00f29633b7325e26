# EC

EC is a terminal mouse click controller for Linux and Wayland. Hold the
physical left mouse button and EC generates repeated synthetic clicks while
forwarding movement, scrolling and unrelated buttons through its virtual
mouse.

```sh
ec setup      # one-time device access and mouse selection
ec doctor     # readiness report
ec start      # 20 clicks per second
ec 100        # any rate from 1 to 600
ec status
ec stop
```

## Layout

- `src/` is the `ec` library, verified with Verus:
  - `click.rs`: click rates and the deadline-driven scheduler, with its
    laws (alternating press/release frames across calls, no drift of the
    press phase, output independent of how often deadlines are handled,
    shutdown releases once, releasing the button cancels future presses,
    a refused frame ends the call with the sink's error), and a sink that
    keeps account of what a button output accepted and refused;
  - `cli.rs`: the single command-line argument;
  - `config.rs`: stable mouse paths, the configuration location and the
    configuration file format (read-back law);
  - `runtime.rs`: the worker's status record (read-back law), `/proc`
    start times, the worker environment, the status report, the refusal of
    a second worker and the steps of starting and stopping it;
  - `input.rs`: which devices are physical mice, choosing one, the messages
    shown when none can be chosen, path ordering (stable for equal paths),
    how each input event and each wait for input is handled, and how a run
    ends;
  - `doctor.rs`: the readiness checks from what the probes found, the
    readiness rule and the report;
  - `setup.rs`: the udev rule, the `udevadm` commands and their results,
    the rule target check, whether the installed rule is current, shell
    quoting (read-back law), the steps of the
    user's setup, the setup menu and the answer to it;
  - `text.rs`: decimal numbers and text helpers.
- `app/` is the `ec` program around the library: command dispatch, files,
  devices (evdev, uinput), the scheduler thread, signals and processes.
- `tests/` runs the library on concrete values.
