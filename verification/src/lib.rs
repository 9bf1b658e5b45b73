//! A store for a ledger of slots, each of which arrives as shreds.
//!
//! [`blockstore::Blockstore`] holds the columns of the ledger in memory. Shreds are inserted with
//! [`insert`], which checks them, recovers missing ones and chains their slots; the entries,
//! blocks and transactions of a slot are read back with [`slot_entries`], [`blocks`] and
//! [`transactions`]. Every batch of writes also goes into a journal, so that whoever owns the
//! store can keep it on disk.
//!
//! The models that the contracts speak of are the `View` types next to each type. What holds
//! across operations is stated by the proof functions whose names start with `law_`, most of them
//! in modules of their own:
//!
//! - of shreds and their insertion, [`insert_laws`], [`shred_laws`], [`run_laws`],
//!   [`recovery_laws`] and [`counter_laws`];
//! - of what is read back, [`reading_laws`], [`entry_laws`], [`block_laws`], [`record_laws`],
//!   [`slot_laws`] and [`repair_laws`];
//! - of roots, purges and the store as a whole, [`laws`], [`root_laws`], [`purge_laws`] and
//!   [`opening_laws`];
//! - of transactions and addresses, [`lookup_laws`], [`address_laws`] and [`paging_laws`];
//! - of writing entries and making up slots, [`writing_laws`] and [`fixture_laws`].

pub mod address_laws;
pub mod addresses;
pub mod batch;
pub mod block_laws;
pub mod blocks;
pub mod blockstore;
pub mod chaining;
pub mod checks;
pub mod coding;
pub mod column;
pub mod consistency;
pub mod counter_laws;
pub mod entries;
pub mod entry_laws;
pub mod fixture_laws;
pub mod fixtures;
pub mod forks;
pub mod insert;
pub mod insert_laws;
pub mod insertion;
pub mod integrity;
pub mod laws;
pub mod ledger;
pub mod links;
pub mod lookup_laws;
pub mod meta;
pub mod metrics;
pub mod opening;
pub mod opening_laws;
pub mod paging_laws;
pub mod purge;
pub mod purge_laws;
pub mod reading_laws;
pub mod record_laws;
pub mod records;
pub mod recovery_laws;
pub mod repair;
pub mod repair_laws;
pub mod root_laws;
pub mod roots;
pub mod run_laws;
pub mod shred;
pub mod shred_laws;
pub mod shredder;
pub mod slot_entries;
pub mod slot_laws;
pub mod slot_runs;
pub mod slots;
pub mod slot_update;
pub mod transactions;
pub mod types;
pub mod writing;
pub mod writing_laws;
