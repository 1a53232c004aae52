# obsidian_mcp

The note logic behind a set of tools that read and edit an Obsidian vault:
frontmatter, sections, tags and wikilinks, and what each vault tool computes
from the notes it reads. Every function in `src/` carries a contract; Verus
proves all of them but the trusted wrappers listed below. The file-system
work lives in `app/`.

## Trusted items

These contracts are believed, not proved; each wrapper only makes one call
and converts its argument and result:

- `parse::frontmatter`: `load_yaml` (`yaml_rust2::YamlLoader::load_from_str`,
  with its result named `yaml_documents`), `yaml_value` (converting a
  `yaml_rust2::Yaml` node), `regex_is_match` (`regex::Regex::is_match` for the
  anchor/alias pattern), and the declared type `yaml_rust2::Yaml`.
- `parse::tags`: `word_character` (the `\w` class of `regex-syntax`, named
  `is_word_character`), `alphanumeric` (`char::is_alphanumeric`, named
  `is_alphanumeric`), `to_lowercase` (`str::to_lowercase`, named
  `lowercase`).
- `text`: `chars_of` (`str::chars`) and `string_of` (collecting characters
  into a `String`).
- `vault::templates`: `load_json` (`serde_json::from_str`, named
  `json_document`), `json_value` (converting a `serde_json::Value`), and the
  declared type `serde_json::Value`.
- `config`: the declared type `std::path::PathBuf`.

## Outside crates

`yaml-rust2`, `regex`, `serde_json` are called from `src/`. `regex-syntax` is
the table behind `regex`'s `\w`: tag names are runs of word characters, and
`word_character` asks that same table (`regex_syntax::is_word_character`)
character by character, so tags are read exactly as the `regex` pattern
would read them. `serde`, `anyhow`, `chrono`, `walkdir` and `rmcp` serve
`app/`.

## Layout

- `src/parse/` — reading a note: `frontmatter` (YAML frontmatter through
  `yaml_rust2`, with the anchor/alias guard), `sections` (headings and the
  section a heading names), `tags` (inline and frontmatter tags, tag removal),
  `tag_removal` (what removing inline tags leaves of a note's tags),
  `wikilink` (`[[target|alias]]` links).
- `src/vault.rs` and `src/vault/` — the computations of the vault tools:
  composing notes, editing sections, whole-note edits (`edit`), searching and
  tag counts (`search`), related-note links (`related`), links between notes
  (`links`), daily notes (`daily`), file names and path checks (`files`) and
  the templates folder setting (`templates`).
- `src/ranking.rs` — counting and ranking: most frequent first, stable
  top-k by key, and sorting names.
- `src/text.rs` — character-sequence helpers (trimming, searching, UTF-8
  lengths).
- `src/tools/` — the requests of the writing tools.
- `app/` — the tools over the disk (`VaultIo` on `Vault`) and the request
  types as the server deserializes them.

Laws that span functions are public proof functions named `law_*`, next to
the functions they speak of.
