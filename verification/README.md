# week_parity

Which teaching week a date falls in, counted from a semester start date, and
whether that week is odd or even; plus the small text formats the week parity
web page is built from.

- `src/` is the library, verified with Verus:
  - `text.rs`: character-level text operations (search, trim, split, order,
    decimal numerals) specified over `Seq<char>`;
  - `config.rs`: reading `config.toml` (start dates and time zone);
  - `date.rs`: week status lines (dates are read by chrono) and choosing the
    start date in effect on a given day;
  - `status.rs`, `theme.rs`, `markup.rs`: what the page shows.
- `app/` is the browser side (wasm-bindgen, web-sys, js-sys): fetching the
  configuration, today's date from `Intl`, and the DOM event handlers.
- `tests/` runs the library on concrete inputs.
