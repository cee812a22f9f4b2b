use vstd::prelude::*;

verus! {

/// Single-byte wire type tags of the relay's binary value encoding.
///
/// `Int1_` and `Int2_` carry the negation of the unsigned quantity that
/// follows them; `IntZero` and `FloatZero` carry no payload at all.
#[derive(Clone, Copy, PartialEq, Eq, Structural, Debug)]
pub enum GpType {
    Null,
    Byte,
    Short,
    IntZero,
    Int1,
    Int1_,
    Int2,
    Int2_,
    CompressedInt,
    FloatZero,
    String,
    StringArray,
    OperationRequest,
}

impl GpType {
    /// The byte that tags a value of this type on the wire.
    pub open spec fn spec_code(self) -> u8 {
        match self {
            GpType::Null => 42,
            GpType::Byte => 98,
            GpType::Short => 115,
            GpType::IntZero => 30,
            GpType::Int1 => 11,
            GpType::Int1_ => 12,
            GpType::Int2 => 13,
            GpType::Int2_ => 14,
            GpType::CompressedInt => 9,
            GpType::FloatZero => 32,
            GpType::String => 7,
            GpType::StringArray => 71,
            GpType::OperationRequest => 2,
        }
    }

    pub fn code(self) -> (r: u8)
        ensures
            r == self.spec_code(),
    {
        match self {
            GpType::Null => 42,
            GpType::Byte => 98,
            GpType::Short => 115,
            GpType::IntZero => 30,
            GpType::Int1 => 11,
            GpType::Int1_ => 12,
            GpType::Int2 => 13,
            GpType::Int2_ => 14,
            GpType::CompressedInt => 9,
            GpType::FloatZero => 32,
            GpType::String => 7,
            GpType::StringArray => 71,
            GpType::OperationRequest => 2,
        }
    }
}

} // verus!
