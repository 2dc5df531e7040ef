pub mod groups;
pub mod index;
pub mod index_laws;
pub mod json;
pub mod names;
pub mod nav;
pub mod nav_laws;
pub mod page_laws;
pub mod render;
pub mod render_laws;
pub mod search;
pub mod search_laws;
pub mod site;
pub mod site_laws;
pub mod sort;
pub mod text;
pub mod tree;
pub mod tree_branches;
pub mod tree_laws;
pub mod tree_order;
pub mod types;
