//! Small numeric functions, a bottom-up in-place merge sort, message framing for a
//! line-based protocol, the decision logic of a chat server, the steps of an event loop's
//! processes, and the scheduling rules of a worker queue and a fork/join assembly line,
//! each with its behaviour stated as a contract and proved.

pub mod basics;
pub mod calc;
pub mod chat;
pub mod framing;
pub mod messages;
pub mod order;
pub mod polling;
pub mod processes;
pub mod scheduling;
pub mod mergesort;
