//! How the end of an evaluation turns into a result.
use crate::convert::{converts_to, ScriptValue};
use crate::value::Value;
use vstd::prelude::*;

verus! {

/// Why an evaluation gave no value.
#[derive(Debug)]
pub enum Error {
    /// The engine terminated the script from outside.
    Timeout,
    /// The script raised an exception; this is its string form.
    Value(String),
}

/// Classifies what the engine reports after compiling or running a script.
///
/// A terminated script is a `Timeout`, whether or not an exception is
/// pending. Otherwise a pending exception is an `Error::Value` holding its
/// string form, and without one the step succeeded with no value.
pub fn exception(terminated: bool, message: Option<String>) -> (r: Result<Value, Error>)
    ensures
        terminated ==> r matches Err(Error::Timeout),
        !terminated && message is Some ==> (r matches Err(Error::Value(m)) && m@ == message->0@),
        !terminated && message is None ==> r matches Ok(Value::NoValue),
{
    if terminated {
        Err(Error::Timeout)
    } else {
        match message {
            Some(m) => Err(Error::Value(m)),
            None => Ok(Value::NoValue),
        }
    }
}

/// The result of evaluating `source`, from what the engine reports at its
/// end: whether the script was terminated, the string form of a pending
/// exception, and the completion value when the engine produced one.
///
/// Termination and exceptions are classified as [`exception`] does. Without
/// either, an empty source has no meaningful result and gives `NoValue`;
/// otherwise the completion value is converted, and without one the result
/// is `NoValue`.
pub fn outcome(
    source: &str,
    terminated: bool,
    message: Option<String>,
    completion: Option<&ScriptValue>,
) -> (r: Result<Value, Error>)
    ensures
        terminated ==> r matches Err(Error::Timeout),
        !terminated && message is Some ==> (r matches Err(Error::Value(m)) && m@ == message->0@),
        !terminated && message is None && source@.len() == 0 ==> r matches Ok(Value::NoValue),
        !terminated && message is None && source@.len() > 0 && completion is Some ==> (r matches Ok(
            v,
        ) && converts_to(*completion->0, v)),
        !terminated && message is None && completion is None ==> r matches Ok(Value::NoValue),
{
    match exception(terminated, message) {
        Err(e) => Err(e),
        Ok(v) => {
            if source.unicode_len() == 0 {
                return Ok(v);
            }
            match completion {
                Some(s) => Ok(Value::new(s)),
                None => Ok(v),
            }
        },
    }
}

} // verus!
