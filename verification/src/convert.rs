//! Between values and messages.

pub mod codes;
pub mod entries;
pub mod records;
pub mod txs;

pub use codes::{
    local_read_status_from_i32, local_read_status_to_i32, read_phase_from_i32, read_phase_to_i32,
    tx_result_from_i32, tx_result_to_i32,
};
pub use entries::{
    inode_entries_from_proto, inode_entries_to_proto, inode_from_proto, inode_to_proto,
    read_entries_from_proto, read_entries_to_proto, read_entry_from_proto, write_entries_from_proto,
    write_entries_to_proto,
};
pub use records::{
    scc_reorder_record_from_proto, scc_reorder_record_to_proto, scc_reorder_records_from_proto,
    scc_reorder_records_to_proto, tx_result_record_from_proto, tx_result_record_to_proto,
    tx_result_records_from_proto, tx_result_records_to_proto,
};
pub use txs::{
    batch_from_proto, batch_to_proto, fs_op_from_proto, fs_op_to_proto, ordered_tx_from_proto,
    ordered_tx_to_proto,
};
