# mdbook-icons

An mdBook preprocessor that replaces Iconify shortcodes such as `:mdi-home:`
with inline SVG, written as a Verus library with a thin program around it.

## Layout

- `src/` is the verified library.
  - `text.rs`: characters, the Unicode whitespace class, trimming.
  - `shortcode.rs`: the shortcode grammar, normalizing configured shortcodes,
    and `ShortcodeMap`, the table type for aliases and rendered markup.
  - `markdown.rs`: transforming a chapter (fenced code, inline code, table
    cells, shortcodes), with its specification.
  - `requests.rs`: the shortcodes a chapter looks up, and the proof that
    rendering just those is enough.
  - `aliases.rs`: user aliases from `book.toml` and following them.
  - `collection.rs`: collection prefixes, Iconify collections and resolving
    icon names through their aliases.
  - `svg.rs`: the SVG markup of a resolved icon.
  - `book.rs`: the tree of book items and transforming all its chapters.
  - `source.rs`: paths, file names, addresses and versions of the icon data.
- `app/` is the program: command line, reading the book from stdin, reading
  and downloading Iconify data, caching it, and writing the book to stdout.
  Icon sizes are floating point; their arithmetic and formatting stay there.
- `tests/` runs the library on concrete inputs.
