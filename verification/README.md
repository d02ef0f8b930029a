# cumulo-web

Cumulo helps you reach a half-remembered cloud resource by association: you
narrow a catalog of resources by categories on several axes (a facet view, a
command palette) or zoom into a map of clusters.

`src/` is the verified core, checked by Verus:

- `color`, `locale`, `ids`, `text` — colours and their hex text, UI
  languages, identifiers, string helpers;
- `filters`, `query` — the active filters and the URL query format (reading,
  writing, canonical URLs), with the round-trip law in `query/laws.rs`;
- `palette`, `matrix`, `facet`, `category`, `resource`, `settings`,
  `storage` — the decisions of the UI: keyboard focus, cell selection, facet
  counts, the category editor, the resource form, the settings flow, save
  failures;
- `layout`, `layout_laws`, `rng` — the map's cluster tree and what it keeps
  of the resources, and the seeded sequence of the force layout;
- `params`, `platform` — the URL query map and the site's base path and
  generated identifiers.

`app/` is the Leptos front end around it: rendering, browser storage and
I/O, serde adapters, and the floating-point map geometry (placement, force
simulation, zoom).

`tests/` exercises the library on concrete values.
