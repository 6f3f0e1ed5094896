# composer_rs

Composer-domain primitives, verified with Verus:

- `version` / `grammar` / `stability`: Composer version normalization
  (`VersionParser::normalize`), stability detection, branch helpers and
  the comparison order; `grammar` holds the version syntax as functions on
  characters.
- `constraint` / `constraint_syntax` / `bound`: constraint parsing
  (`^`, `~`, wildcards, hyphen ranges, operators, `||` unions, branch
  references), matching, lower/upper bounds and interval intersection.
- `json` / `php_json`: JSON values and a byte-exact PHP `json_encode` for
  Composer's content-hash and file-write flag sets.
- `json_text`: reading JSON text (RFC 8259) into the JSON model; the
  encoder's output, for values without floats, reads back as the value.
- `wire`: the `composer/2.0` minified repository metadata (expand and
  minify) and the `p2/*.json` / `packages.json` documents.
- `text`: character-level helpers shared by the parsers.

Every function states its result in its `ensures` clause over a
mathematical model; the laws (`law_*` proof functions) state what holds
across calls, such as the version order being a total preorder and
`expand_versions(minify_versions(v))` giving back objects equal to `v`
for well-formed versions (distinct keys at every depth, as every JSON
object has; `JsonMap::wf`) with no top-level `"__unset"` value.

`app/` is the unverified edge: `serde_json::Value` conversion, the
serde-derived `PackageDocument` / `RootManifest` documents, the
`serde_json::Value` encoder entry point, and a constraint parser that
panics where a bound overflows `u32`.
