//! SSH public keys carried in Hesiod-style DNS TXT records: the lookup name,
//! the split of a key line into TXT strings of bounded size, and the
//! reassembly of key lines from the strings of a response.

pub mod codec;
pub mod config;
pub mod indexed;
pub mod lookup;
pub mod order;
pub mod priority;
pub mod publish;
pub mod records;
pub mod text;
