pub mod union_find;
