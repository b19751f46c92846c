//! State of the front end that triggers a transcode: the path typed in by
//! the user.

use vstd::prelude::*;

verus! {

/// What the front end keeps between events.
pub struct Application {
    /// The path of the stream to reduce, as typed so far.
    pub text: String,
}

impl Application {
    /// A front end with no path typed yet.
    pub fn new() -> (r: Self)
        ensures
            r.text@ == Seq::<char>::empty(),
    {
        Application { text: String::new() }
    }
}

} // verus!
