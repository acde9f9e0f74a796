//! A server that clients send messages to one another through.
//!
//! A client that connects is sent its ID. Each message that it sends names the
//! client that it is for ([`message`]), and that client is handed its bytes. The
//! server is told here eight times, once for each way of reading from and writing to
//! many clients at once. None of the modules reads or writes by itself: each is told
//! what came of a read, a write or a poll, and says what to do next.

pub mod buffers;
pub mod channel_per_writer;
pub mod hand_rolled;
pub mod history;
pub mod identity;
pub mod indexed_hand_rolled;
pub mod message;
pub mod mutex;
pub mod naive;
pub mod poll;
pub mod queue;
pub mod race;
pub mod race_zero_copy;
pub mod shared_socket;
pub mod table;
pub mod wire;
