# gate_keeper

A small HTTP test-plan and client-certificate service. The logic lives in a
library verified with Verus; a thin server wraps it.

Layout:

- `src/` — the verified library.
  - `text.rs`: character-level helpers (trimming, splitting, decimal text).
  - `plan.rs`, `plan_parser.rs`: the test-plan model and its text parser.
  - `plan_paths.rs`: cleaning of plan paths, display names, slugs.
  - `substitution.rs`: `{{variable}}` substitution and dynamic values.
  - `execution.rs`: request resolution, assertions, run results and logs.
  - `store.rs`: the plan store, the execution queue, history and the browser.
  - `certificates.rs`, `upload.rs`: client certificates and host matching.
  - `sorting.rs`: a stable newest-first sort.
  - `laws.rs`: properties that span several operations, proved.
- `tests/` — tests of the library on concrete values.
- `app/` — the server: routes, file storage, the HTTP client, the script
  engine and the plan-directory watcher.
