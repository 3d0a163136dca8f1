//! Building, sending, receiving and ordering file lists.

pub mod hardlinks;
pub mod laws;
pub mod recv;
pub mod send;
pub mod sort;

pub use recv::{recv_file_list, recv_file_list_ex};
pub use send::{send_file_list, send_file_list_ex, Preserve};
pub use sort::flist_sort;
