# lambda_beavers

Busy beavers for the lambda calculus: lambda terms in de Bruijn notation, their binary
encoding, and reducers that find their normal forms. The library is written in Verus and
every function in `src/` carries a contract that Verus proves.

- `debruijn`, `term`, `parse`, `parse_binary`, `print`: terms, their text and binary forms.
- `reference`: a direct leftmost-outermost reducer on terms, the specification the others
  are held to.
- `debruijn_flat`, `debruijn_inner`: terms stored flat in one vector, with in-place
  contraction; each abstraction records how often its variable occurs, and
  `usage_facts` holds the proofs about those counts.
- `flat_tree`, `beta_reduce`, `reduce`: the contour tree, where the variables of each
  abstraction form a linked list, its in-place contraction and the reducer built on it;
  `contour_edit`, `layout_links`, `subst_facts`, `redex_facts`, `contraction_facts`,
  `tree_facts` and `reduce_facts` hold the proofs about them.
- `interactive`: the marked text of a redex and `Explorer`, the state steps of the
  interactive reducer (contract a chosen redex, go back).
- `app/` holds the command-line program that enumerates terms by binary length and
  reduces each one, and the prompt loop around `Explorer`.
