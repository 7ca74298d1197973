# yarecs

A scope-aware regex scanner for C-like languages, verified with Verus.  Rules are matched against
source code with awareness of the enclosing scopes (namespace, class, method), so that a rule can be
limited to certain scopes, or can ask that another pattern be present or absent nearby.

## Layout

| Module | What it holds |
|---|---|
| `lexer`, `lex_spec`, `lex_laws` | tokens, comment ranges and string ranges of a source |
| `scope`, `scope_spec`, `scope_laws` | language profiles, header classification, the scope tree |
| `rules`, `rules_laws` | scope filters, search targets, chains, compilation of a configuration |
| `pattern` | the calls into the regex engine |
| `ranges`, `lines`, `lines_laws` | byte ranges, code gaps, line windows, statements, snippets |
| `engine`, `engine_spec`, `engine_laws` | which rule fires where, and what is reported |
| `output`, `output_spec`, `output_laws` | text, JSON, CSV and SARIF reports |
| `ai_filter` | questions to an optional AI classifier and its answers |
| `cli` | file selection, the scan of one file, exit code and summary |
| `text` | operations on strings |

A `*_spec` module says what a result is, over mathematical sequences; the executable functions are
proved to compute exactly that.  A `*_laws` module proves what holds of these results in general.
`app/` is the command line around the library: arguments, files, TOML and HTTP.

## What is taken on trust

- `String::push` and `String::push_str` append.
- `grep::regex::RegexMatcherBuilder::build` and `grep::matcher::Matcher::find_iter`: what they
  return is named, not defined; matches lie in the haystack, in order and without overlap.
- `serde_json::from_slice` and its error, indexing a `serde_json::Value`, and `as_str`: named.
- The `Debug` text of a string: named.
