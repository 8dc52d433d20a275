# argot_cli

A command-line argument parser whose behaviour is stated in contracts and proved
with Verus, and the `argot` command built on it.

Options are configured as flags, texts, integers, counts, lists and aliases.
Arguments are read as long options (`--name[=value]`), clusters of short options
(`-abc`), `name=value` parameters and operands; everything after `--` is an operand.

## Layout

- `src/` — the verified library.
  - `strmap.rs`: a text-keyed map kept in insertion order, viewed as a `Map`.
  - `types.rs`: configuration entries, option values and parse results.
  - `errors.rs`: the error type and its messages.
  - `utils.rs`: classifying one argument, reading integers, splitting lists.
  - `parser_config.rs`: a configuration in which every alias resolves.
  - `arg_parser.rs`: the parser, its specification (`parse_args`) and its laws.
  - `read_config.rs`: reading option entries out of a JSON-like document.
- `tests/` — tests of the library on concrete values.
- `app/` — the `argot` command: argument handling, configuration and state files,
  and serde copies of the library's types.
