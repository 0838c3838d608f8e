use vstd::prelude::*;

verus! {

/// Arguments of the interactive read-eval-print session.
pub struct Args {}

impl Default for Args {
    fn default() -> (r: Args)
        ensures
            r == (Args {  }),
    {
        Args {  }
    }
}

} // verus!
