//! Core of a real-time chat relay: a room directory with optional per-room
//! passwords, a membership registry that tracks which connections are in which
//! room, a broadcast router that computes delivery targets, and the
//! per-connection session state machine with its heartbeat rule.

pub mod chatroom;
pub mod handlers;
pub mod support;
pub mod websocket;
