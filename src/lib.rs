use vstd::prelude::*;

pub mod canonical;
pub mod collection;
pub mod decode;
pub mod encode;
pub mod frame;
pub mod number;
pub mod order;
pub mod rank;

pub use decode::{decode, DecodeError, RespDecode};
pub use encode::RespEncode;
pub use frame::{
    BulkString, FloatWrapper, RespArray, RespFrame, RespMap, RespNull, RespNullArray,
    RespNullBulkString, RespSet, SimpleError, SimpleString,
};

verus! {

} // verus!
