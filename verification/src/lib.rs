//! A Tendermint-style BFT consensus core: vote collection, validator sets,
//! proposer selection, the propose/prevote/precommit state machine, seal
//! assembly and verification, epoch transitions, fee settlement, and the
//! canonical wire codec. All state lives in plain values; the surrounding
//! node (channels, sockets, timers, key store) feeds events in and carries
//! the emitted actions out.

pub mod chain;
pub mod codec;
pub mod collector;
pub mod epoch;
pub mod fees;
pub mod network;
pub mod timeout;
pub mod worker;
pub mod types;
pub mod validator;
