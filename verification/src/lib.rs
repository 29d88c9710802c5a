//! Label-filtered graph search by multi-hop expansion, and the bookkeeping
//! around it: label bitmaps and their cache, benchmark results and traces.

pub mod bitmap;
pub mod bitmap_cache;
pub mod filters;
pub mod label;
pub mod multihop_dev;
pub mod multihop_search_dev;
pub mod multihop_search_dev_earlystop;
pub mod multihop_search_dev_earlystop_id_laws;
pub mod multihop_search_dev_earlystop_laws;
pub mod multihop_search_dev_earlystop_step_laws;
pub mod multihop_search_dev_id_laws;
pub mod multihop_search_dev_laws;
pub mod multihop_search_dev_step_laws;
pub mod neighbor;
pub mod queue;
pub mod queue_exact_laws;
pub mod queue_id_laws;
pub mod queue_laws;
pub mod result;
pub mod result_table;
pub mod scratch;
pub mod text;
pub mod trace_file;
pub mod visited;
