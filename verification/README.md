# mintlify_hygiene

Hygiene checks for Mintlify-style documentation trees, with the checking
logic verified by Verus.

- `src/` is the library. Each module states what its functions compute:
  - `frontmatter`: the `---` frontmatter block as a byte grammar, body
    offsets, line/column of offsets, and the `frontmatter_yaml` rule;
  - `markdown`: the `unescaped_lt` and `prose_em_dash` rules over the source
    text of the text and raw HTML nodes of the parsed body;
  - `dashes`: where an em dash is written in that source (the character, or
    in text a character reference for it), and the source with each one
    turned into ` - `;
  - `autofix`: the em dash rewrite and how it lines up with its rule;
  - `config`: the configuration model, path resolution and glob filters;
  - `nav`: the page slugs a navigation file's JSON text registers;
  - `lint`: file name and navigation rules, and the run over a tree's files;
  - `finding`: findings, their report line, report order and exit status;
  - `pathx`, `globs`, `text`: calls into `std::path`, `globset` and std
    string helpers.
- `app/` is the command line tool: argument parsing, reading the
  configuration (TOML) file and the navigation file, walking the tree,
  writing fixed pages, printing findings.
- `tests/` runs the library on concrete pages.
