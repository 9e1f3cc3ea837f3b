# somnium_ui

The logic of a retained-mode editor UI toolkit, written in Verus so that
each function's contract is proved.

- `src/` is the verified library: the generational node arena (`pool`),
  focus scopes, window-event routing and keyboard navigation (`ui`,
  `runtime::nav`), layer draw order (`runtime::canvas`), UTF-8 text
  composition, rich-text markup, input-method composition, font fallback
  and localisation substitution (`text`), themes and component paint
  recipes (`theme`, `style`, `typography`), row and grid windows over long
  lists (`virtual_list`), the thumbnail atlas and its request queue
  (`thumbnail`), `.somui` document validation and live instances
  (`somui`), the timeline's asset checks, selection and bounded undo
  history (`timeline`), and the view tokens that refuse edits made against
  a stale document (`semantic_authoring`).
- `app/` holds what cannot be verified: process-wide state, environment
  variables, `winit` events and keyboard bindings, the hit test,
  floating-point geometry and paint sizes, JSON reading with `serde`, and
  file paths. It hands the library plain values and takes plain values
  back.
- `tests/` exercises the library from outside, as its users would.

The thumbnail cache's path-keyed bookkeeping (`keyed::KeyedTable`) and the
authored navigation links (`runtime::nav::NavLinks`) are vectors of
entries with distinct keys rather than std's `HashMap` and `HashSet`:
Verus specifies those collections, but with a `String` key or a key of the
library's own with derived `Eq` and `Hash` it proves nothing of what they
hold, so the contracts of the code that keeps them could not be stated.
