# gpui_gfm

GitHub Flavored Markdown for a GPUI renderer. The library in `src/` holds
the logic, written in Verus and verified against its contracts: parsing
markdown into a block/inline tree (comrak for markdown, tl for inline HTML,
`<details>` sections split out first), an LRU cache of parsed documents,
GitHub reference handling, height estimation, the styled runs and segments
that inline content is laid out as, and the byte-offset arithmetic of text
selections and of a text field's cursor.

`app/` is the GPUI side: the element tree, painting, event handling, the
floating-point layout estimates, and the playground program. It calls the
library for every decision that does not need GPUI.

`tests/` runs the library on concrete inputs.
