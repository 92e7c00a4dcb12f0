# tex_ls

The layout engine of a LaTeX formatter, and the parts of a LaTeX and BibTeX front end that it
leans on, verified with Verus.

- `src/syntax.rs`, `src/validity.rs`: the concrete syntax tree, stored flat, and a check of its
  shape.
- `src/format.rs`: the entry points. A document that was read cleanly becomes a layout; any other
  is refused. `src/finish.rs` tidies the text that a layout has been printed as.
- `src/lower.rs` and the modules that it calls (`prose`, `lines`, `environments`, `begin`,
  `lists`, `alignment`, `cells`, `table`, `math`, `display`, `commands`, `groups`, `segments`,
  `conditional`, `expl`, `expl_paragraph`, `statements`, `docs`): from the tree to a layout.
  `src/ir.rs` defines layouts. Each function is proved to compute the spec function that stands
  beside it.
- `src/ink.rs`, `src/fidelity.rs`: the ink of a text is what is left of it without its white space.
  The layout of a document, or of a range of it, has the ink of its source in order, and a line
  break behind each comment, in whatever form it is printed. In a documented source, whose margins
  are put before each line anew, percent signs do not count as ink. The layout of each block is held
  against its source; a block that would say something else is reproduced as it stands.
- `src/regions.rs`: the stretches of expl3 code in a document.
- `src/gate.rs`: which closer belongs to an opener.
- `src/roles.rs`: what the arguments of commands mean.
- `src/bib_model.rs`, `src/bib_reparse.rs`: what a bibliography file defines and uses, and edits
  of single words in it.
- `src/settings.rs`, `src/signatures.rs`: configuration, and what is known of commands.

Laws are public proof functions: of the lowering in `src/laws.rs`, `src/grid_laws.rs` (tables),
`src/ink_laws.rs` (blocks) and `src/expl_laws.rs` (expl3 code), of the rest beside what they speak
of.

Parsing and printing are not in the library. What other analyses know of an element of the tree
comes with it, as its `Facts`. `app/` holds the configuration as files spell it, errors as
`std::error::Error`, and the way from a `rowan` tree to the library's.
