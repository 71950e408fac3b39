# caller-utils

Generates a crate with RPC stubs for the interfaces that a package describes in WIT files,
and makes the workspace and its members use that crate.

- `src/` is the library: the names, the types, the WIT files, the stubs, the generated
  files and the manifests. The functions there are verified with Verus against their
  contracts, except for the calls listed below.
- `app/` reads and writes the files, and sends the messages of the chat command.
- `tests/` runs the library on concrete values.

| Module           | What it holds                                                       |
|------------------|---------------------------------------------------------------------|
| `text`           | texts as sequences of characters, and what can be said of them      |
| `strings`        | the executable functions on texts                                   |
| `naming`         | snake case and Pascal case                                          |
| `wit_types`      | WIT types and the Rust types for them                               |
| `signature`      | signature records in WIT files                                      |
| `worlds`         | worlds, what they import and which of them is chosen                |
| `stubs`          | the asynchronous function for a signature                           |
| `named`          | texts with names                                                    |
| `crate_files`    | the files of the generated crate                                    |
| `toml_tree`      | TOML documents as trees                                             |
| `manifest`       | members of a workspace and their dependency on the process library  |
| `manifest_edits` | edits that add the generated crate                                  |
| `chat_send`      | the decisions of the chat command                                   |

## What is trusted

The contracts of these calls into the standard library and the `toml` crate are believed,
not proved:

| Item                          | What it calls or tells apart                            |
|-------------------------------|---------------------------------------------------------|
| contract of `String::push`    | `String::push`, in `strings`                            |
| `naming::first_uppercase`     | `char::to_uppercase`                                    |
| `chat_send::text_of_bytes`    | `String::from_utf8`                                     |
| `toml_tree::open_value`       | the variants of `toml::Value`                           |
| `toml_tree::close_value`      | the variants of `toml::Value`                           |
| `toml_tree::parse_value`      | `str::parse` for `toml::Value`                          |
| `toml_tree::pretty_value`     | `toml::to_string_pretty`                                |

The types `toml::Value`, `toml::de::Error` and `toml::ser::Error` are declared as they are.
Four results have names without a definition: `upper_beyond_ascii`, `toml_tree`,
`parsed_tree` and `pretty_text`.
