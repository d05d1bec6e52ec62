use vstd::prelude::*;
use vstd::string::StringSliceAdditionalSpecFns;

verus! {

/// Path chosen when execution passes through a failpoint
#[derive(Debug, PartialEq, Eq, Structural, Hash, Clone, Copy)]
pub enum Branch {
    /// The failpoint is skipped as if it never existed
    Skip,
    /// The failpoint is activated: whatever it was set up to do happens
    /// instead of the normal flow of the code
    Activate,
}

impl Branch {
    /// The branch that is not `self`.
    pub open spec fn spec_other(self) -> Branch {
        match self {
            Branch::Skip => Branch::Activate,
            Branch::Activate => Branch::Skip,
        }
    }

    /// The branch that is not `self`.
    pub fn other(self) -> (r: Branch)
        ensures
            r == self.spec_other(),
            r != self,
    {
        match self {
            Branch::Skip => Branch::Activate,
            Branch::Activate => Branch::Skip,
        }
    }
}

/// Label of a point that execution passes through
#[derive(Debug, Clone, Copy, PartialEq, Eq, Hash)]
pub enum Label {
    /// Execution passes through the named failpoint
    Failpoint(&'static str),
    /// Execution of the tested code has finished
    Finished,
}

impl View for Label {
    /// The failpoint's name as characters, or `None` for `Finished`.
    type V = Option<Seq<char>>;

    open spec fn view(&self) -> Option<Seq<char>> {
        match self {
            Label::Failpoint(name) => Some(name@),
            Label::Finished => None,
        }
    }
}

/// Whether two names have the same characters, compared byte by byte.
fn same_name(a: &str, b: &str) -> (r: bool)
    ensures
        r == (a@ == b@),
{
    let x = a.as_bytes();
    let y = b.as_bytes();
    proof {
        vstd::utf8::encode_utf8_decode_utf8(a@);
        vstd::utf8::encode_utf8_decode_utf8(b@);
    }
    if x.len() != y.len() {
        assert(a@ == b@ ==> x@ == y@);
        return false;
    }
    let mut i: usize = 0;
    while i < x.len()
        invariant
            x@ == a.spec_bytes(),
            y@ == b.spec_bytes(),
            x@.len() == y@.len(),
            0 <= i <= x@.len(),
            forall|j: int| 0 <= j < i ==> x@[j] == y@[j],
        decreases x@.len() - i,
    {
        if x[i] != y[i] {
            assert(x@ != y@);
            return false;
        }
        i = i + 1;
    }
    assert(x@ =~= y@);
    true
}

impl Label {
    /// Whether two labels denote the same point: both `Finished`, or
    /// failpoints whose names hold the same characters.
    pub fn same(&self, other: &Label) -> (r: bool)
        ensures
            r == (self@ == other@),
    {
        match (self, other) {
            (Label::Failpoint(a), Label::Failpoint(b)) => same_name(a, b),
            (Label::Finished, Label::Finished) => true,
            _ => false,
        }
    }
}

} // verus!
