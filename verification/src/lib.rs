//! A lock-free queue study, rebuilt around a verified core.
//!
//! The centrepiece is a Michael & Scott first-in-first-out queue over a
//! singly linked chain of nodes with an epoch-style reclaimer; around it
//! stand the smaller exercises of the same collection: linked stacks, a
//! simple owned queue, template-string parsers, a line-oriented command
//! parser with an in-memory employee database, a pig-latin encoder and a
//! mode calculator.

pub mod cmd;
pub mod db;
pub mod enum_parser;
pub mod flexi_parser;
pub mod msq;
pub mod piglatin;
pub mod queue;
pub mod reclaim;
pub mod simple_parser;
pub mod stack;
pub mod stats;
pub mod template;
