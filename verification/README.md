# mkwebfont

A library for splitting fonts into webfont subsets, written in Verus: the data structures,
parsers and splitting rules carry `requires`/`ensures` contracts that Verus proves.

## Layout

- `src/` — the verified library.
  - Character sets and ranges: `character_set`, `ranges`, `sort`, `order`.
  - Hashing and packaging: `hashing`, `nix_base32`, `data_package`, `download_cache`.
  - Samples of page text and their statistics: `model::bitset_list`, `model::adjacency_array`,
    `bloom`, `font_info`, `text_runs`, `font_requests`.
  - Planning and splitting: `subset_plan`, `splitter_plan`, `subset_data`, `gfsubsets`,
    `gf_splitter`, `adjacency_splitter`, `fallbacks`.
  - CSS and pages: `css_rules`, `css_text`, `selector_filter`, `apply_rules`, `rewrite_targets`,
    `paths`.
  - Fonts and the stylesheets of the output: `fonts`, `category`, `render`, `font_face_rules`.
  - Outside crates (zstd, blake3, wyrand, roaring, the Unicode table crates) are called through
    small trusted wrappers whose contracts name or state their results; each wrapper's doc
    comment says what it claims.
- `app/` — ordinary Rust around the library: file and network I/O, bincode records, the
  floating-point byte encodings and ratios, and the webroot cache. It hands the library plain
  values and checks the library's preconditions before each call.
- `tests/` — tests of the library on concrete values.

## What is proved

Each public function states its result exactly over spec functions of plain values. Laws that
span functions are public proof functions named `law_*`. Among them: the compressed form of a
character set is unique; encoding the decoded ranges gives the set back; a framed package reads
back; the splitters share out code points without overlap; joining adjacency builders equals
counting both sample lists.

What stays outside `src/`: the font parsing and subsetting (allsorts, hb-subset), CSS and HTML
parsing (lightningcss, kuchikiki, scraper), downloads, and floating-point arithmetic.
