//! Streams: flow keys, retained metadata, unknown payloads and the aggregator.
pub mod accounts;
pub mod answers;
pub mod bounds;
pub mod capture;
pub mod closing;
pub mod condense;
pub mod fanout;
pub mod freshness;
pub mod gathering;
pub mod handles;
pub mod heap;
pub mod index;
pub mod key;
pub mod labels;
pub mod leaving;
pub mod members;
pub mod merging;
pub mod origins;
pub mod placing;
pub mod queues;
pub mod records;
pub mod rollup;
pub mod state;
pub mod steps;
pub mod store;
pub mod stream;
pub mod summing;
pub mod table;
pub mod tally;
pub mod traffic;
pub mod tree;
pub mod unknown;

pub use crate::flows::key::flow_key;
pub use crate::flows::rollup::{Rollup, RollupSet, SeriesPoint, ACCUMULATE_SET_CAP};
pub use crate::flows::state::{
    AggregatorConfig, EvictionPolicy, Totals, DEFAULT_CONDENSE_THRESHOLD,
};
pub use crate::flows::store::query::{
    AggregateSummary, AggregatorSnapshot, MergedStreamView, STOP_CLASSES,
};
pub use crate::flows::store::{Aggregator, EvictedStream};
pub use crate::flows::stream::{
    dir_index, CloseReason, CondensedInfo, DirStats, Stream, StreamId,
};
pub use crate::flows::tally::ProtocolCounts;
pub use crate::flows::unknown::{EndpointKey, UnknownGroup, UnknownKey, UnknownRegistryConfig};
