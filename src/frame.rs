use vstd::prelude::*;
use vstd::utf8::encode_utf8;

verus! {

/// The UTF-8 bytes of a text payload.
pub open spec fn text_bytes(s: String) -> Seq<u8> {
    encode_utf8(s@)
}

/// True when a byte sequence holds neither `\r` nor `\n`, so that it can stand on one line.
pub open spec fn single_line(b: Seq<u8>) -> bool {
    forall|i: int| 0 <= i < b.len() ==> b[i] != 13u8 && b[i] != 10u8
}

/// Text of a simple string reply: no line terminator inside.
#[derive(Debug, PartialEq, Eq, PartialOrd, Ord)]
pub struct SimpleString(pub String);

/// Text of an error reply: no line terminator inside.
#[derive(Debug, PartialEq, Eq, PartialOrd, Ord)]
pub struct SimpleError(pub String);

/// A length-prefixed byte payload.
#[derive(Debug, PartialEq, Eq, PartialOrd, Ord)]
pub struct BulkString(pub Vec<u8>);

/// An ordered sequence of frames.
#[derive(Debug, PartialEq, Eq, PartialOrd, Ord)]
pub struct RespArray(pub Vec<RespFrame>);

/// The unified null marker.
#[derive(Debug, PartialEq, Eq, PartialOrd, Ord)]
pub struct RespNull;

/// The legacy null array marker.
#[derive(Debug, PartialEq, Eq, PartialOrd, Ord)]
pub struct RespNullArray;

/// The legacy null bulk string marker.
#[derive(Debug, PartialEq, Eq, PartialOrd, Ord)]
pub struct RespNullBulkString;

/// A map from text keys to frames, held as entries sorted by strictly increasing key bytes.
#[derive(Debug, PartialEq, Eq, PartialOrd, Ord)]
pub struct RespMap(pub Vec<(String, RespFrame)>);

/// A set of frames, held sorted by strictly increasing encoding, so without duplicates.
#[derive(Debug, PartialEq, Eq, PartialOrd, Ord)]
pub struct RespSet(pub Vec<RespFrame>);

impl SimpleString {
    /// Wraps text that holds no line terminator.
    pub fn new(s: &str) -> (r: SimpleString)
        requires
            single_line(encode_utf8(s@)),
        ensures
            r.0@ == s@,
    {
        SimpleString(s.to_owned())
    }
}

impl SimpleError {
    /// Wraps error text that holds no line terminator.
    pub fn new(s: &str) -> (r: SimpleError)
        requires
            single_line(encode_utf8(s@)),
        ensures
            r.0@ == s@,
    {
        SimpleError(s.to_owned())
    }
}

impl BulkString {
    /// Copies an arbitrary byte payload.
    pub fn new(s: &[u8]) -> (r: BulkString)
        ensures
            r.0@ == s@,
    {
        let mut v: Vec<u8> = Vec::new();
        let mut i: usize = 0;
        while i < s.len()
            invariant
                i <= s@.len(),
                v@ == s@.subrange(0, i as int),
            decreases s@.len() - i,
        {
            v.push(s[i]);
            i = i + 1;
            proof {
                assert(v@ =~= s@.subrange(0, i as int));
            }
        }
        proof {
            assert(v@ =~= s@);
        }
        BulkString(v)
    }
}

impl RespArray {
    /// An array of the given frames, in the given order.
    pub fn new(v: Vec<RespFrame>) -> (r: RespArray)
        ensures
            r.0@ == v@,
    {
        RespArray(v)
    }
}

/// A double. A finite one is held in shortest decimal form: the value is
/// `(-1)^negative * mantissa * 10^exponent`, the mantissa without a trailing zero digit, and
/// zero with exponent 0. An infinity keeps only its sign; NaN is held as the one positive NaN.
#[derive(Debug, Clone, Copy, PartialEq, Eq, PartialOrd, Ord)]
pub struct FloatWrapper {
    pub negative: bool,
    pub mantissa: u64,
    pub exponent: i32,
    pub infinite: bool,
    pub nan: bool,
}

/// Largest decimal exponent that a double's shortest form needs, with room to spare.
pub const MAX_EXPONENT: i32 = 400;

impl FloatWrapper {
    pub open spec fn wf(&self) -> bool {
        &&& !(self.infinite && self.nan)
        &&& (self.infinite || self.nan) ==> self.mantissa == 0 && self.exponent == 0
        &&& self.nan ==> !self.negative
        &&& -MAX_EXPONENT <= self.exponent <= MAX_EXPONENT
        &&& if self.mantissa == 0 {
            self.exponent == 0
        } else {
            self.mantissa % 10 != 0
        }
    }

    /// Builds the double `(-1)^negative * mantissa * 10^exponent` in canonical form.
    pub fn new(negative: bool, mantissa: u64, exponent: i32) -> (r: Option<FloatWrapper>)
        ensures
            r is Some <==> (mantissa == 0 ==> exponent == 0) && (mantissa != 0 ==> mantissa
                % 10 != 0) && -MAX_EXPONENT <= exponent <= MAX_EXPONENT,
            r matches Some(w) ==> w.wf() && w.negative == negative && w.mantissa == mantissa
                && w.exponent == exponent && !w.infinite && !w.nan,
    {
        let w = FloatWrapper { negative, mantissa, exponent, infinite: false, nan: false };
        if exponent < -MAX_EXPONENT || exponent > MAX_EXPONENT {
            None
        } else if mantissa == 0 && exponent != 0 {
            None
        } else if mantissa != 0 && mantissa % 10 == 0 {
            None
        } else {
            Some(w)
        }
    }
}

impl FloatWrapper {
    /// Positive or negative infinity.
    pub fn infinity(negative: bool) -> (r: FloatWrapper)
        ensures
            r.wf(),
            r.infinite && !r.nan && r.negative == negative,
    {
        FloatWrapper { negative, mantissa: 0, exponent: 0, infinite: true, nan: false }
    }

    /// Not a number.
    pub fn nan() -> (r: FloatWrapper)
        ensures
            r.wf(),
            r.nan && !r.infinite,
    {
        FloatWrapper { negative: false, mantissa: 0, exponent: 0, infinite: false, nan: true }
    }
}

/// One value of the protocol.
#[derive(Debug, PartialEq, Eq, PartialOrd, Ord)]
pub enum RespFrame {
    SimpleString(SimpleString),
    Error(SimpleError),
    Integer(i64),
    BulkString(BulkString),
    NullBulkString(RespNullBulkString),
    Null(RespNull),
    NullArray(RespNullArray),
    Array(RespArray),
    Boolean(bool),
    Double(FloatWrapper),
    RespMap(RespMap),
    RespSet(RespSet),
}

} // verus!
