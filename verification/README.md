# quicklendx_currency

The multi-currency whitelist of the QuickLendX invoice contracts, as a Verus-verified
library.

- `src/address.rs`: token addresses, held as their strkey text.
- `src/spec.rs`: the model: a whitelist is a sequence of strkeys without repeats; the
  effect of each operation on it, and the pages that paged reads return.
- `src/whitelist.rs`: `CurrencyWhitelist`, with the admin-only writes (`add_currency`,
  `remove_currency`, `set_currencies`, `clear_currencies`), the public reads and the
  currency check made before invoices and bids.
- `src/laws.rs`: properties that span several operations (idempotent adds, removal
  undoing an add, paging that walks the whole list in order, ...).
- `app/lib.rs`: the Soroban contract entrypoints; they move the admin and the list
  between contract storage and the library and make the host's `require_auth` call.
