# fatescroll

A structured randomness engine for random tables: collections of tables
written in YAML are loaded, validated, searched, shown and rolled on,
with chaining between tables, compound tables, dice interpolation in
result text and a small expression language for result bindings.

## Layout

- `src/` is the library, written in Verus. Its functions carry contracts
  that Verus proves, except a few small trusted wrappers around std and the
  regex crate (appending a character, lowercasing, matching a namespace
  segment), whose contracts are taken as given:
  - `models`, `registry`, `search`, `display`: the table model, the
    registry of fully qualified ids and its reference resolution, searches
    and text rendering.
  - `dice`, `validator`, `init`, `editor`: dice-expression facts, table
    validation (coverage of every outcome, envelopes, namespaces,
    references), table templates and the editor's dice queries.
  - `roller`: the decisions of rolling, driven by the dice outcomes it is
    handed, so that every roll is a replay that can be checked.
  - `expression`, `parser`, `checker`, `evaluator`, `result_text`: the
    expression language of result text, from characters to values.
  - `collection`, `loader`, `lib`: which files of a collection hold tables,
    and building a registry from them.
  - `fixer`: making table ids match their file names and renaming the
    references to corrected ids.
- `app/` is the command-line program and the browser editor's entry points
  around the library: file and directory access, YAML and JSON, the dice
  engine and printing.
- `tests/` exercises the library from the outside.

Laws that span several functions (what registering and then looking up
gives, that searching returns each match once and in order, that replaying
dice is sound, that autofilled tables validate, and others) are stated as
public proof functions next to the functions they speak of.
