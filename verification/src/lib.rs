//! A composite typed object: a tree of typed components flattened into two
//! parallel arrays (a preorder component list and a sorted type index), with
//! verified upcast/downcast navigation between component views by type key.

pub mod cursor;
pub mod key;
pub mod laws;
pub mod object;
pub mod tree;

pub use cursor::Component;
pub use key::TType;
pub use object::Obj;
pub use object::ObjectComponentEntry;
pub use object::ObjectValue;
pub use tree::Tree;
