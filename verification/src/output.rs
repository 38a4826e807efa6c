use vstd::prelude::*;

verus! {

/// Output from an arm handler.
///
/// This decides what the select object produces.
pub enum Output<R> {
    /// Produce the given value as an item of the stream.
    Value(R),
    /// End the stream now, without producing a value.
    Terminate,
}

/// Terminate the stream.
pub fn terminate<R>() -> (r: Output<R>)
    ensures
        r is Terminate,
{
    Output::Terminate
}

/// Type that a handler expression may evaluate to.
pub trait SafeResult: Sized {
    /// The item type produced by the select object.
    type Item;

    /// What `result` hands back for this value.
    spec fn outcome(self) -> Option<Output<Self::Item>>;

    /// Retrieve the actual result of the handler arm:
    ///
    /// `Some(Output::Value(x))` produces `x`, `Some(Output::Terminate)` ends the stream,
    /// `None` produces nothing.
    fn result(self) -> (r: Option<Output<Self::Item>>)
        ensures
            r == self.outcome(),
    ;
}

/// What a handler's wrapped value turns into: nothing when the handler bailed out
/// (`None`), else what its value stands for.
pub open spec fn result_spec<T: SafeResult>(input: Option<T>) -> Option<Output<T::Item>> {
    match input {
        Some(t) => t.outcome(),
        None => None,
    }
}

/// Turn the wrapped value of a handler into the arm's output.
pub fn result<T: SafeResult>(input: Option<T>) -> (r: Option<Output<T::Item>>)
    ensures
        r == result_spec(input),
{
    match input {
        Some(t) => t.result(),
        None => None,
    }
}

impl<R> SafeResult for Option<R> {
    type Item = R;

    open spec fn outcome(self) -> Option<Output<R>> {
        match self {
            Some(v) => Some(Output::Value(v)),
            None => None,
        }
    }

    fn result(self) -> (r: Option<Output<R>>) {
        match self {
            Some(v) => Some(Output::Value(v)),
            None => None,
        }
    }
}

impl<R> SafeResult for Output<R> {
    type Item = R;

    open spec fn outcome(self) -> Option<Output<R>> {
        Some(self)
    }

    fn result(self) -> (r: Option<Output<R>>) {
        Some(self)
    }
}

impl SafeResult for () {
    type Item = ();

    open spec fn outcome(self) -> Option<Output<()>> {
        None
    }

    fn result(self) -> (r: Option<Output<()>>) {
        None
    }
}

/// A handler value of `Some(x)` produces `x`; one of `None` produces nothing; a handler
/// that bails out with `?` produces nothing.
pub proof fn lemma_option_handler<R>(x: R)
    ensures
        result_spec(Some(Some(x))) == Some(Output::Value(x)),
        result_spec(Some(None::<R>)) == None::<Output<R>>,
        result_spec(None::<Option<R>>) == None::<Output<R>>,
{
}

/// A handler that evaluates to an `Output` produces exactly that output, and one that
/// evaluates to `()` never produces anything.
pub proof fn lemma_output_and_unit_handler<R>(o: Output<R>)
    ensures
        result_spec(Some(o)) == Some(o),
        result_spec(Some(())) == None::<Output<()>>,
        result_spec(None::<()>) == None::<Output<()>>,
{
}

} // verus!
