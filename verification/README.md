# adapter

A wireless adapter for a handheld console's link port, on a Pico board: it logs in with the
console, answers the adapter commands at once, and brings in a remote partner's presence and data
through a framed byte stream over UART or USB.

- `src/` is the verified library. It does no I/O: it names the next operation as a value
  (`LinkAction`, `RouterAction`, `Turn`) and is resumed with the outcome.
  - `comms/spi.rs` exchanges 32-bit words bit by bit; `comms/gpi.rs` adds the acknowledgement,
    `comms/login.rs` the handshake, `comms/diagnose.rs` the wire report.
  - `comms/routes.rs` is the command router.
  - `relay.rs` parses the stream and keeps the partner and the received slot.
  - `ring.rs` is the byte queue; its index decisions are shown to be safe for one producer and one
    consumer that see each other's index late.
  - `serial_usb.rs`, `uart_link.rs`, `words.rs` turn words into bytes and watch for the reboot
    request; `supervisor.rs` and `heartbeat.rs` are the main loop's decisions.
- `app/` is the firmware around it: pins, UART, USB, watchdog and the two cores. The framing of
  requests in link words (`Wap` in `app/router.rs`) is linked in by the image. The library uses
  std; an image for the bare board needs a toolchain that provides it.
- `tests/` runs the library.

The public proof functions named `law_..` state what holds of the library as a whole.
