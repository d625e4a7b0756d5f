# dsmr_to_zaptec

Firmware that reads a Dutch smart meter's P1 port (DSMR5) and steers a Zaptec
EV charger with the power that is left over.

- `src/` is the verified library:
  - `text.rs` models the `str` operations the response parsers rely on
    (`trim`, `trim_start_matches`, `trim_end_matches`, `contains`, `split`,
    `u64::from_str`) and implements them over character ranges;
  - `zaptec.rs` reads the OAuth token response and the installation list,
    builds the `Authorization` header and the token's expiry, and proves that
    a response built from a token and a lifetime reads back to them;
  - `dsmr.rs` picks the delivered and received power out of a P1 telegram;
  - `wifi.rs` holds the network seed and the link supervisor's decisions;
  - `error/` holds the API client's error types.
- `app/` is the firmware around it: Wi-Fi, UART, LED, HTTP and the main loop.
- `tests/` exercises the library on concrete inputs.
