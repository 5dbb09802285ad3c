//! pktflow: protocol dissection plugins and the stream aggregator that folds
//! dissected packets into a hierarchy of conversations.
pub mod bytes;
pub mod der;
pub mod engine;
pub mod flows;
pub mod identity;
pub mod layer;
pub mod packet;
pub mod plugins;
pub mod small;
pub mod text;
pub mod value;
