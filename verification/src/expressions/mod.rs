pub mod index_access;
pub mod literals;
pub mod top_items;
pub mod values;
pub mod struct_call;
