# bweb

Routing for Bevy applications that run in the browser.

- `src/` is the library, verified with Verus: route patterns (`path`), the splitter over URL
  paths (`split`), matching a path against a pattern (`parse`), comparing how specific two
  patterns are (`specificity`), choosing among alternative routes (`route`), resolving the
  routes of a tree of nodes (`resolve`), the navigation state (`pathname`), bound parameters
  (`params`), link handling (`link`) and the web runner's decisions (`runner`).
- `app/` holds the Bevy plugins and systems that read the page and the entity tree, hand
  plain values to the library and carry out its decisions.
- `tests/` runs the library on concrete values.
