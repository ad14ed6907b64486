//! Compact building blocks for a key-value store's object layer: a growable
//! byte buffer with a width-adaptive header, a sorted integer set whose
//! element width adapts to its members, and a doubly linked list with
//! pluggable per-value hooks.

pub mod ad_list;
pub mod int_set;
pub mod sds;
pub mod z_malloc;

pub use ad_list::{It, List, Node, ValueClone, ValueDrop, ValueEquals};
pub use int_set::{Encoding, IntSet};
pub use sds::{
    sds_req_type, sds_type_max_size, Sds, SdsHdr, SDS_MAX_PRE_ALLOC, SDS_TYPE_16, SDS_TYPE_32,
    SDS_TYPE_64, SDS_TYPE_8,
};
pub use z_malloc::{z_malloc_usable, z_realloc_usable, z_try_malloc_usable};
