# gemini_book

Order books, quotes and subscription tracking for the prediction-market feed of
the Gemini exchange, with the logic proved in Verus.

- `src/` is the verified library:
  - `decimal` — decimals as the parts of a `rust_decimal::Decimal`; comparison,
    subtraction, addition and formatting are done by `rust_decimal`.
  - `orderbook` — sorted price levels, sequence checks, quotes, and the book
    keeper's decision for each depth update.
  - `subscription_manager` — the subscription tracker: request ids, outstanding
    requests, symbol states, acknowledgements, resyncs and refresh plans.
  - `strategy` — arbitrage, side picking and expiry signals.
  - `auth` — request signing (base64 payload, HMAC-SHA-384, hex).
  - `text` — decimal and hexadecimal digits, written character by character.
  - `message`, `response`, `market_state`, `order`, `utils` — records and text.
- `app/` runs the program: websocket, REST client, channels, the shared market
  map, and the serde forms of the records.
- `tests/` exercises the library on concrete values.
