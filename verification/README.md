# nlp_processor

A small phrase matcher: a configuration of phrases, field types and tasks is
compiled into a tree of nodes, and each input sentence is matched against that
tree to find the task it expresses and the field values (such as a last name) it
carries. The library is written and proved with Verus.

## Layout

- `src/text.rs`: splitting, lower-casing and building strings.
- `src/phrase/`: word, group, meta and field phrases, the store that holds them,
  and how a phrase matches input (`PhraseResult`, fixed-point confidences with
  `CONFIDENCE_SCALE` standing for 1).
- `src/field_type/`: the built-in first-name and last-name field types and custom
  field types with synonyms.
- `src/node/`: the node tree of task paths and how input is matched along it.
- `src/processor/`: the grammar of configuration lines (`{name}` references), the
  caches, and `Processor`, which compiles a `ConfigFiles` and processes input.
- `app/`: the command-line program; it reads `./config/<name>/` from disk
  (`field_types.var`, `phrases/*.td`, `field_types/*.td`, `tasks/*.task`), hands the
  files to the library and answers sentences typed on standard input.
- `tests/`: tests of the library.
