use vstd::prelude::*;

use crate::parameter_dictionary::{ParameterDictionary, ValueModel};

verus! {

/// A decoded operation response frame: the opcode it answers, the server's
/// return code, an optional debug text, and the parameter payload.
#[derive(Debug)]
pub struct OperationResponse {
    pub operation_code: u8,
    pub return_code: i16,
    pub debug_message: Option<String>,
    pub payload: ParameterDictionary,
}

/// The mathematical shape of an operation response.
pub struct OperationResponseModel {
    pub operation_code: u8,
    pub return_code: int,
    pub debug_message: Option<Seq<char>>,
    pub payload: Seq<(u8, ValueModel)>,
}

impl View for OperationResponse {
    type V = OperationResponseModel;

    open spec fn view(&self) -> OperationResponseModel {
        OperationResponseModel {
            operation_code: self.operation_code,
            return_code: self.return_code as int,
            debug_message: match self.debug_message {
                Some(s) => Some(s@),
                None => None,
            },
            payload: self.payload.model(),
        }
    }
}

} // verus!
