//! A byte-oriented codec for sequences of unsigned 32-bit integers.
//!
//! The integers are taken four at a time. A member of a full group of four
//! is stored in the fewest bytes that hold it, one to four, least
//! significant byte first, and the byte counts of the four members are
//! packed into one control byte, two bits each. The one to three integers
//! that are left over, the tail, have no control byte: each is stored in
//! seven-bit groups.
//!
//! ```text
//! stream  := control bytes, data bytes, tail bytes
//! control := one byte for each full group of four integers; bits 0-1
//!            hold the code of the first member, bits 6-7 that of the
//!            fourth; a code c stands for c + 1 data bytes
//! data    := the stored bytes of each member of a full group, in order
//! tail    := for each tail integer its seven-bit groups, lowest first,
//!            one to a byte; the high bit is set on every byte but the
//!            last of the integer
//! ```
//!
//! The stream carries no length: the number of integers, and for the delta
//! variant the initial value, travel beside it.
//!
//! [`encode`] and [`decode`] take a sequence as it stands; [`encode_delta`]
//! and [`decode_delta`] store the steps from each integer to the next,
//! which are small where the sequence does not decrease.
//!
//! Output buffers are made to the size that [`max_compressedbytes`] gives.
//! A stream fits in it unless two or three tail integers take five bytes:
//! the stream may then be one or two bytes longer, and [`encode_to_buf`]
//! refuses a buffer that is too short for it.
//!
//! What the functions return is stated over the model in [`stream`], and
//! [`theorems`] holds what follows for every input: that decoding gives
//! back what was encoded, how long a stream can be, and that no integer
//! takes more bytes than it needs.

pub mod control;
pub mod data;
pub mod delta;
pub mod error;
pub mod layout;
pub mod plain;
pub mod stream;
pub mod theorems;
pub mod varint;

pub use crate::delta::{decode_delta, encode_delta, encode_delta_to_buf};
pub use crate::error::StreamVbyteError;
pub use crate::layout::max_compressedbytes;
pub use crate::plain::{decode, encode, encode_to_buf, stream_bytes};
