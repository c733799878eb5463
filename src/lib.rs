//! Reconstruction of a database B-tree index from page-level introspection data.

pub mod catalog;
pub mod decimal;
pub mod error;
pub mod layout;
pub mod model;
pub mod page;
pub mod rows;
pub mod tid;
pub mod walk;

pub use error::BuildError;
pub use model::{IndexInfo, Item, MetadataPage, Page, RowData, Tree};
pub use page::{PageStats, RawItem};
pub use tid::{Tid, TidError};
pub use walk::{Request, TreeWalk};
pub use catalog::{connection_string, split_column_names, CatalogEntry};
pub use layout::parent_child_mapping;
