# larql_represent

Choosing how a model's tensors are represented, and keeping straight what was
decided, what it cost and what was measured.

`src/` is the verified library:

- bytes and addresses: `physical`, `binding`, `layered`, `source_bank`,
  `codec`, `nvfp4_pack`, `reference_encoder`
- maps and roles: `policy`, `map`, `opplan`, `plan_roles`
- measured quality and what it may be used for: `reading`, `measurement`,
  `quality`, `gates`, `experiment`, `selection`, `search_evidence`, `promotion`
- what a source and a state are: `digest`, `json`, `canon`, `source_identity`,
  `surface`, `resolved`, `identity`, `realization`
- the search: `transition`, `graph`, `action_space`, `candidate`, `generator`,
  `assess`, `search_policy`, `allocation`, `authority`, `semantics`
- experiments: `evidence_bank`, `instrument`, `key`, `protocol`, `coexecution`
- what a state costs: `accounting`, `bind`, `footprint`
- shared ground: `text`, `table`, `ranking`, `error`

`tests/` runs the library. `app/` holds what lies around it: memory maps, files,
stored records and floating-point arithmetic.
