//! Gift-circle generation: arranges participants into one closed giving
//! cycle, optionally honouring group constraints (no participant gives to
//! a member of their own group, and the cycle never places two members of
//! the same group next to each other, wrap-around included).

pub mod balance;
pub mod gift_circle;
pub mod gift_path;
pub mod group;
pub mod laws;
pub mod people;
pub mod person;
pub mod pick;
pub mod seq_facts;
pub mod tally;
