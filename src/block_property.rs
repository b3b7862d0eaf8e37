//! The `unstable` block property, which an interaction toggles.
use vstd::prelude::*;
use vstd::string::StringSliceAdditionalSpecFns;

verus! {

/// The `unstable` property of a block.
#[derive(Debug, Clone, Copy, PartialEq, Eq, Structural)]
pub struct Unstable(pub bool);

/// The bytes of `true`.
pub open spec fn true_bytes() -> Seq<u8> {
    seq![116u8, 114, 117, 101]
}

impl Unstable {
    /// The property's value as text.
    pub fn value(&self) -> (r: String)
        ensures
            self.0 ==> r@ == "true"@,
            !self.0 ==> r@ == "false"@,
    {
        if self.0 {
            "true".to_owned()
        } else {
            "false".to_owned()
        }
    }

    /// The value after an interaction: `false` for `true`, else `true`.
    pub fn on_interact(&self, value: &str) -> (r: String)
        ensures
            value.spec_bytes() == true_bytes() ==> r@ == "false"@,
            value.spec_bytes() != true_bytes() ==> r@ == "true"@,
    {
        let b = value.as_bytes();
        let t: [u8; 4] = [116u8, 114, 117, 101];
        assert(t@ =~= true_bytes());
        let mut same = b.len() == 4;
        let mut i: usize = 0;
        while same && i < 4
            invariant
                same ==> b@.len() == 4,
                i <= 4,
                same ==> forall|k: int| 0 <= k < i ==> b@[k] == t@[k],
                !same ==> b@ != true_bytes(),
                t@ == true_bytes(),
            decreases 4 - i,
        {
            if b[i] != t[i] {
                same = false;
            }
            i = i + 1;
        }
        if same {
            assert(b@ =~= true_bytes());
            Unstable(false).value()
        } else {
            Unstable(true).value()
        }
    }
}

} // verus!
