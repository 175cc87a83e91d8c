//! A sharded lock service with a client-side shard cache.
//!
//! The server arbitrates ownership of key shards between clients; once a
//! client owns a shard it serves every lock operation on that shard locally
//! until another client steals it.  This crate holds the verified core of the
//! protocol: the shard data tables, the wire messages, the server's shard
//! registry and per-session arbiter, the client's cache and release watcher,
//! and proofs of the protocol's central invariants.

use vstd::prelude::*;

mod api;
mod connection;
mod data;
mod lock;
mod logger;
mod metrics;
mod protocol;
mod resource;
mod service;
mod ui;

verus! {

pub use crate::api::ClientError;
pub use crate::api::Code;
pub use crate::api::LockRequest;
pub use crate::api::LockRequestBody;
pub use crate::api::LockResponse;
pub use crate::api::LockResponseBody;
pub use crate::api::Status;

pub use crate::connection::boot_data;
pub use crate::connection::boot_slot;
pub use crate::connection::has_pair;
pub use crate::connection::has_shard;
pub use crate::connection::ConnectionMap;
pub use crate::connection::Shard;
pub use crate::connection::SwapOutcome;

pub use crate::data::ShardData;

pub use crate::lock::handle_close_frame;
pub use crate::lock::handle_release_frame;
pub use crate::lock::lemma_fast_path;
pub use crate::lock::lemma_lock_unlock_restores;
pub use crate::lock::lemma_release_all_idempotent;
pub use crate::lock::release_all_spec;
pub use crate::lock::routed_key_ok;
pub use crate::lock::set_locked_spec;
pub use crate::lock::CacheEntry;
pub use crate::lock::CacheMap;
pub use crate::lock::EntryView;
pub use crate::lock::Lock;
pub use crate::lock::LockStep;
pub use crate::lock::UnlockError;

pub use crate::logger::drain;
pub use crate::logger::init;
pub use crate::logger::Logger;

pub use crate::metrics::MetricsOpts;
pub use crate::metrics::Record;

pub use crate::protocol::copies;
pub use crate::protocol::in_chain;
pub use crate::protocol::init as protocol_init;
pub use crate::protocol::inv;
pub use crate::protocol::inv_at;
pub use crate::protocol::is_active;
pub use crate::protocol::lemma_at_most_one_owner;
pub use crate::protocol::lemma_chain_append_only;
pub use crate::protocol::lemma_chain_linearity;
pub use crate::protocol::lemma_chain_total_order;
pub use crate::protocol::lemma_init_inv;
pub use crate::protocol::lemma_single_copy;
pub use crate::protocol::lemma_step_preserves_inv;
pub use crate::protocol::step;
pub use crate::protocol::ModelStep;
pub use crate::protocol::Phase;
pub use crate::protocol::SessionModel;
pub use crate::protocol::ShardModel;
pub use crate::protocol::SlotModel;
pub use crate::protocol::Transit;

pub use crate::resource::dec_rep;
pub use crate::resource::dec_val;
pub use crate::resource::format_key;
pub use crate::resource::key_item_val;
pub use crate::resource::key_of;
pub use crate::resource::key_shard_val;
pub use crate::resource::lemma_dec_rep_digits;
pub use crate::resource::lemma_dec_val_of_rep;
pub use crate::resource::lemma_key_parts;
pub use crate::resource::parse_dec;
pub use crate::resource::parse_key;
pub use crate::resource::perturb;
pub use crate::resource::perturbed;
pub use crate::resource::shard_prefix;
pub use crate::resource::u32_to_string;
pub use crate::resource::wf_key;
pub use crate::resource::FileSystem;
pub use crate::resource::Resource;

pub use crate::service::event_data_wf;
pub use crate::service::event_fits;
pub use crate::service::finish_spec;
pub use crate::service::state_ok;
pub use crate::service::step_spec;
pub use crate::service::LockService;
pub use crate::service::SessionEffect;
pub use crate::service::SessionEvent;
pub use crate::service::SessionState;

pub use crate::ui::str_views;
pub use crate::ui::Ui;

} // verus!
