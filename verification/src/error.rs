use vstd::prelude::*;

verus! {

/// Errors that the services hand back to their callers.
#[derive(PartialEq, Eq, Structural, Clone, Copy, Debug)]
pub enum ServiceError {
    /// A key of the payload is missing.
    KeyNotFound,
    /// A value does not have the expected format.
    Format,
    /// The flow state does not hold what was asked for.
    Flow,
}

impl ServiceError {
    /// The message that the service reports for this error.
    pub fn message(&self) -> (r: &'static str)
        ensures
            r@ == match self {
                ServiceError::KeyNotFound => "传入数据键缺失"@,
                ServiceError::Format => "格式错误"@,
                ServiceError::Flow => "计算图交互错误"@,
            },
    {
        match self {
            ServiceError::KeyNotFound => "传入数据键缺失",
            ServiceError::Format => "格式错误",
            ServiceError::Flow => "计算图交互错误",
        }
    }
}

} // verus!
