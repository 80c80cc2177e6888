# ai_monitor

A local monitor for AI coding tools: Codex profiles, rate limits and reset
credits, and OpenCode token usage. The decisions are a library verified with
Verus; the file system, processes, HTTP, SQLite and JSON live around it.

## Layout

- `src/` — the verified library.
  - `codex.rs`: profile names, the profile store's paths, listing and
    resolution, the stored configuration, errors.
  - `codex_dashboard.rs`, `rate_limits.rs`, `dashboard_view.rs`: labels of
    rate-limit buckets and windows, the order of additional buckets, plan
    names, what the dashboard shows of each account and credit, and how its
    layout follows the card width.
  - `credits.rs`: reset credits, which expire soon, the next expiry,
    subscriptions and which account entry gives the renewal date.
  - `app_server.rs`: what a reply means to a waiting request, and the kept
    tail of the app-server's error stream.
  - `model.rs`: token usage and its saturating sums.
  - `opencode.rs`, `opencode_dashboard.rs`, `paths.rs`: daily usage by
    provider and model, the days a report covers, the per-project and
    per-agent dashboard, project resolution, and where the database is.
  - `fields.rs`: the text fields read out of a message's JSON.
  - `update.rs`: release assets, versions and checksum verification.
  - `text.rs`: character-level helpers shared by the rest.
- `tests/` — tests of the library's public functions.
- `app/` — the input and output around the library.

Each module states its contracts over spec functions; the public proof
functions named `law_*` state what holds across calls.
