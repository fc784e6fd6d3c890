use vstd::prelude::*;

verus! {

/// The collected `#`-prefixed header lines, in arrival order.
pub(crate) struct Header {
    pub(crate) v: Vec<String>,
}

impl Header {
    pub(crate) fn new() -> (h: Header)
        ensures
            h.v@ == Seq::<String>::empty(),
    {
        Header { v: Vec::new() }
    }

    pub(crate) fn accept(&mut self, line: String)
        ensures
            final(self).v@ == old(self).v@.push(line),
    {
        self.v.push(line);
    }
}

} // verus!
