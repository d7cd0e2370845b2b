# prdash

A verified model of a terminal pull-request queue: it turns the pull requests
a code host lists into list entries, groups dependent pull requests into
stacks, and keeps the state of the list/detail browser. The library is written
in Verus; every function in `src/` carries a contract that Verus proves.

Layout:

- `src/text.rs` – string equality used by the parsers of state strings.
- `src/checks.rs` – CI check entries: classification, labels, tallies and the
  overall verdict.
- `src/order.rs` – the stable "largest key first" ordering used for sorting.
- `src/pr.rs` – review states, raw pull-request records, list entries
  (`PrSummary`), the detail view (`PrDetail`), and the newest-first list.
- `src/stack.rs` – `PrStack` and its roll-ups (most urgent review state,
  summed checks, newest update).
- `src/grouping.rs` – `group_stacks`: pull requests whose base branch is
  another open pull request's head branch are stacked on it.
- `src/partition.rs` – proof that grouping places every pull request in
  exactly one group.
- `src/app.rs` – the browser state: visible rows, expanded stacks, selection,
  detail mode and auto-refresh timing.
- `src/display.rs` – what a stack header row and a pull-request row show
  (marker, dimming, draft mark, tree glyph, roll-ups), as plain values.
- `app/` – unverified edges: JSON decoding of `gh` output (serde), terminal
  events (crossterm) and the `workmux` command.
- `tests/` – tests of the library.

Not included: drawing the list with ratatui (the cell-formatting helpers it
would build on are not part of this code base), and per-kind attention
counters in the header (the `Attention` classification of a pull request
they count is not part of this code base either).

Time is given to the library as plain values: update times as seconds and
nanoseconds since the Unix epoch, and refresh times as nanoseconds on the
caller's monotonic clock.
