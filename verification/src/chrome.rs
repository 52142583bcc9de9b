//! Data of the Chrome debugger protocol that the measurements record: requests, their
//! initiators, and targets.

use vstd::prelude::*;

verus! {

/// A network request: its URL and headers.
#[derive(Clone, PartialEq, Eq, PartialOrd, Ord, Hash, Debug)]
pub struct Request<S> {
    pub url: S,
    pub headers: Headers<S>,
}

/// The headers of a request that are recorded.
#[derive(Clone, PartialEq, Eq, PartialOrd, Ord, Hash, Debug)]
pub struct Headers<S> {
    pub referer: Option<S>,
}

/// Why a network request happened.
///
/// A request caused by a script comes either with the stack of the script (as for an
/// XmlHttpRequest) or with the URL of the JS module being loaded.
#[verifier::reject_recursive_types(S)]
#[derive(PartialEq, Eq, PartialOrd, Ord, Hash, Debug)]
pub enum Initiator<S> {
    Other {},
    Parser { url: S },
    Script(InitiatorScript<S>),
}

/// The kinds of script initiators.
#[verifier::reject_recursive_types(S)]
#[derive(PartialEq, Eq, PartialOrd, Ord, Hash, Debug)]
pub enum InitiatorScript<S> {
    Stack { stack: StackTrace<S> },
    JsModule { url: S },
}

/// A stack of calls, with the stack it was started from, if any.
#[verifier::reject_recursive_types(S)]
#[derive(PartialEq, Eq, PartialOrd, Ord, Hash, Debug)]
pub struct StackTrace<S> {
    pub call_frames: Vec<CallFrame<S>>,
    pub parent: Option<Box<StackTrace<S>>>,
}

/// One call of a stack: the URL and the id of its script.
#[derive(Clone, PartialEq, Eq, PartialOrd, Ord, Hash, Debug)]
pub struct CallFrame<S> {
    pub url: S,
    pub script_id: S,
}

/// A debugging target: its URL and type.
#[derive(Clone, PartialEq, Eq, PartialOrd, Ord, Hash, Debug)]
pub struct TargetInfo<S> {
    pub url: S,
    pub target_type: TargetType,
}

/// The types of debugging targets.
#[derive(Copy, Clone, PartialEq, Eq, PartialOrd, Ord, Hash, Debug)]
pub enum TargetType {
    Page,
    BackgroundPage,
    Iframe,
    ServiceWorker,
    Worker,
    Browser,
    Other,
    Webview,
}

} // verus!
