//! A small in-memory key/value store speaking a line-framed wire protocol:
//! a streaming frame codec, a command layer, and a shared backend store.
pub mod backend;
pub mod cmd;
pub mod codec;
pub mod decode;
pub mod encode;
pub mod frame;
pub mod laws;
pub mod msg;
pub mod order;
pub mod text;
pub mod wire;


pub use backend::Backend;
pub use cmd::{
    Command, CommandError, Echo, Get, HGet, HMGet, HSet, SADD, SISMEBER, SetCmd, Unrecognized,
    get_args, get_args_without_check, parse_key_values_as_string,
};
pub use codec::RespCodec;
pub use encode::RespEncode;
pub use frame::{
    BulkString, RespArray, RespError, RespFrame, RespMap, RespNull, RespSet, SimpleError,
    SimpleString, StringifyError, MAX_SIMPLE_STRING,
};
