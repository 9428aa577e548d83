# leptos_csr_preload

Route-aware preload planning for client-side-rendered Leptos apps built with Trunk's split-WASM
support, verified with Verus.

A registry maps route patterns (`/about`, `/users/:id`, `/reports/:id?`, `/files/*rest`) to split
prefixes; Trunk's split manifest maps split keys to hashed WASM files. The library resolves the
registry through the manifest, chooses the preloads of a request path, and injects
`<link rel="modulepreload">` / `<link rel="preload">` tags into `index.html` before `</head>`.

## Layout

- `src/` — the verified library.
  - `pattern.rs`: route pattern parsing, matching and specificity.
  - `manifest.rs`: the split manifest as a map kept in key order (a type invariant), and the
    choice of the manifest file.
  - `registry.rs`: preload registrations.
  - `index.rs`: building the index and resolving the preloads of a path, with its laws
    (most specific route wins, global preloads on every route, queries ignored).
  - `html.rs`: the `index.html` template and preload tags, with its laws (a page renders back
    unchanged without preloads; URLs already on the page get no second tag; rendering a
    rendered page again changes nothing).
  - `serving.rs`: when an SPA fallback server answers with `index.html`, and the page it
    sends then (global preloads on every HTML page).
  - `attributes.rs`: the decisions of the `#[lazy]` and `#[lazy_route]` attributes.
  - `text.rs`, `order.rs`: string and ordering helpers with their specifications.
- `tests/` — tests of the library.
- `app/` — what touches the outside world: reading `dist/`, serde, the `inventory` registry,
  the Axum fallback service, and the attributes' token handling.
