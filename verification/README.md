# pcc

`pcc` combines the source files of a project into one XML document, to be
copied to the clipboard or saved to a file. With `--deps` it follows the
imports of TypeScript and JavaScript files and adds the files they depend
on, each with the files that import it.

The library under `src/` is verified with Verus:

- `text`, `paths`: line splitting and indentation as `str::lines` does it,
  and Unix paths as `std::path` reads them (components, joining, parents,
  prefixes, extensions, and the order paths are sorted in).
- `patterns`: ignore patterns in `.gitignore` format (`*`, `?`, `[...]`,
  `**`, a leading or inner `/` that anchors, a trailing `/`, `#` comments and
  `!` negation, the last matching line deciding) turned into regular
  expressions and matched with the `regex` crate.
- `config`: the configuration file's `[default]` table, the command-line
  options, and what they decide together (ignore patterns, action, output
  path).
- `json`, `dependency_resolver`, `graph`: the aliases of a `tsconfig.json`
  (parsed with `serde_json`),
  and the depth-first resolution of an entry file's dependencies as a state
  machine that takes one step per call: it asks its caller for the imports
  of one file at a time, and reports each import that leads back to a file
  still in progress.
- `typescript_resolver`: the import specifiers of a source, found with
  tree-sitter's TypeScript grammar, and where each is to be looked up.
- `processor`: the document itself, section by section.

`app/main.rs` is the command: it parses the arguments, reads the
configuration, the files and `tsconfig.json`, looks imports up on disk with
`oxc_resolver`, walks directories with `ignore`, and copies or saves the
result.
