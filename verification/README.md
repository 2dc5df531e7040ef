# emmylua_doc_html

A library that lays out a static HTML site for the declarations of a Lua
workspace: which declarations get a page, where the page lies, what the sidebar
of each page shows, how types link to each other, and what the search index
holds. Every function states what it returns, and Verus proves it.

- `index`: the declarations, which of them get a page, and the links between types
- `site`: the pages and the landing page
- `nav`, `groups`, `tree`, `render`: the sidebar
- `search`, `json`: the search index
- `names`, `text`, `sort`, `types`: what the others are made of
- `site_laws`, `tree_laws`, `tree_order`: what holds of every site and of every tree

`app/` writes a site to disk. It asks the analysis of the workspace for the
declarations and for the contents of their pages, fills the templates and writes
the files.

Two things rest on code that is not proved here: `String::push` of the standard
library, and `serde_json::to_string`, which writes the search index.
