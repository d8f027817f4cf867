//! The hook by which an application replaces the display text of the pending block.
use vstd::prelude::*;
use crate::types::BlockKind;

verus! {

/// What a transformer is shown of the pending block.
#[derive(Debug, Clone, Copy)]
pub struct PendingTransformInput<'a> {
    /// The kind of the block, as far as it is known.
    pub kind: BlockKind,
    /// The pending text as it came in.
    pub raw: &'a str,
    /// The display text so far, terminated and with what the transformers
    /// before this one made of it.
    pub display: &'a str,
}

/// A transformer of the pending display text.
pub trait PendingTransformer: Send + Sync {
    /// `Some` with the text that replaces the display text, or `None` to
    /// leave it as it is.
    fn transform(&self, input: PendingTransformInput<'_>) -> Option<String>;

    /// Called when the stream is reset.
    fn reset(&self) {
    }
}

/// A function as a transformer. The function must accept every input.
pub struct FnPendingTransformer<F> where
    for <'a>F: Fn(PendingTransformInput<'a>) -> Option<String> + Send + Sync,
 {
    f: F,
}

impl<F> FnPendingTransformer<F> where
    for <'a>F: Fn(PendingTransformInput<'a>) -> Option<String> + Send + Sync,
 {
    #[verifier::type_invariant]
    closed spec fn total(self) -> bool {
        forall|input: PendingTransformInput<'_>| call_requires(self.f, (input,))
    }

    /// The function that the transformer calls.
    pub closed spec fn function(self) -> F {
        self.f
    }

    /// The transformer that calls `f`.
    pub fn new(f: F) -> (r: Self)
        requires
            forall|input: PendingTransformInput<'_>| call_requires(f, (input,)),
        ensures
            r.function() == f,
    {
        FnPendingTransformer { f }
    }
}

impl<F> PendingTransformer for FnPendingTransformer<F> where
    for <'a>F: Fn(PendingTransformInput<'a>) -> Option<String> + Send + Sync,
 {
    fn transform(&self, input: PendingTransformInput<'_>) -> (r: Option<String>)
        ensures
            call_ensures(self.function(), (input,), r),
    {
        proof {
            use_type_invariant(self);
        }
        (self.f)(input)
    }
}

/// The display text after a transformer has answered: its text where it gave
/// one, else the text as it was.
pub open spec fn transformed(display: Seq<char>, answer: Option<String>) -> Seq<char> {
    match answer {
        Some(text) => text@,
        None => display,
    }
}

/// Takes a transformer's answer into the display text.
pub fn apply_answer(display: String, answer: Option<String>) -> (r: String)
    ensures
        r@ == transformed(display@, answer),
{
    match answer {
        Some(text) => text,
        None => display,
    }
}

} // verus!
