pub mod beta_reduce;
pub mod common_terms;
pub mod contour_edit;
pub mod contraction_facts;
pub mod debruijn;
pub mod debruijn_flat;
pub mod debruijn_inner;
pub mod flat_tree;
pub mod interactive;
pub mod layout_links;
pub mod parse;
pub mod parse_binary;
pub mod print;
pub mod print_facts;
pub mod reduce;
pub mod redex_facts;
pub mod redex_order;
pub mod reduce_facts;
pub mod reference;
pub mod subst_facts;
pub mod term;
pub mod term_print_facts;
pub mod text;
pub mod tree_facts;
pub mod usage_facts;
pub mod utils;
