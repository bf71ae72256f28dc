//! A keyboard debouncer: the state machine that filters chatter out of a stream of key edges, and
//! the decisions of the daemon that runs it between a keyboard and a virtual device.

pub mod args;
pub mod carried;
pub mod cleanliness;
pub mod cli;
pub mod cmdline;
pub mod codes;
pub mod debounce;
pub mod device;
pub mod edges;
pub mod event;
pub mod events;
pub mod guarantees;
pub mod independence;
pub mod latency;
pub mod listing;
pub mod pipeline;
pub mod replug;
pub mod session;
pub mod signal;
pub mod sim;
pub mod startup;
pub mod table;
pub mod text;
pub mod time;
pub mod timing;
pub mod trace;
pub mod virtdev;
pub mod wording;
