//! Decisions of the legacy JS fallback: what an evaluation comes to, and when it is interrupted.
//!
//! The engine runs legacy JS that has not been migrated yet. An evaluation has a budget: while it
//! runs there is a deadline, after which the engine is told to stop.
use vstd::prelude::*;

verus! {

/// A JS evaluation error, carrying the engine's message.
#[derive(Debug, Clone, PartialEq, Eq)]
pub struct JsError(pub String);

impl JsError {
    /// The engine's message.
    pub fn message(&self) -> (m: &String)
        ensures
            *m == self.0,
    {
        &self.0
    }
}

/// What a JS expression evaluates to: nothing, or a value coerced to a string.
#[derive(Debug, Clone, PartialEq, Eq)]
pub enum JsValue {
    Undefined,
    Null,
    Text(String),
}

/// The result of an evaluation: `None` for `undefined` and `null`, else the string.
pub fn evaluated(outcome: Result<JsValue, JsError>) -> (r: Result<Option<String>, JsError>)
    ensures
        match outcome {
            Ok(JsValue::Text(t)) => r == Ok::<Option<String>, JsError>(Some(t)),
            Ok(_) => r == Ok::<Option<String>, JsError>(None),
            Err(e) => r == Err::<Option<String>, JsError>(e),
        },
{
    match outcome {
        Ok(JsValue::Text(t)) => Ok(Some(t)),
        Ok(JsValue::Undefined) => Ok(None),
        Ok(JsValue::Null) => Ok(None),
        Err(e) => Err(e),
    }
}

/// Wall-clock deadline (ms since epoch) after which evaluation is aborted, if there is one.
#[derive(Debug, Clone, Copy, PartialEq, Eq)]
pub struct Deadline {
    at: Option<u64>,
}

impl View for Deadline {
    type V = Option<u64>;

    closed spec fn view(&self) -> Option<u64> {
        self.at
    }
}

impl Deadline {
    /// No deadline: nothing is interrupted.
    pub fn unset() -> (d: Deadline)
        ensures
            d@ is None,
    {
        Deadline { at: None }
    }

    /// The deadline of an evaluation that starts at an instant with a budget.
    pub fn after(now_ms: u64, timeout_ms: u64) -> (d: Deadline)
        requires
            now_ms + timeout_ms <= u64::MAX,
        ensures
            d@ == Some((now_ms + timeout_ms) as u64),
    {
        Deadline { at: Some(now_ms + timeout_ms) }
    }

    /// Whether an evaluation is interrupted at an instant.
    pub fn is_due(&self, now_ms: u64) -> (b: bool)
        ensures
            b == due(self@, now_ms),
    {
        match self.at {
            Some(at) => now_ms >= at,
            None => false,
        }
    }
}

/// Whether a deadline has passed.
pub open spec fn due(deadline: Option<u64>, now_ms: u64) -> bool {
    match deadline {
        Some(at) => now_ms >= at,
        None => false,
    }
}

/// An evaluation runs within its budget and is interrupted when that is spent, at every later
/// instant too; without a deadline it is never interrupted.
pub proof fn law_budget(start: u64, timeout: u64, now: u64)
    requires
        start + timeout <= u64::MAX,
        start <= now,
    ensures
        due(Some((start + timeout) as u64), now) <==> now - start >= timeout,
        !due(None, now),
{
}

} // verus!
