use vstd::prelude::*;

use crate::index::Name;

verus! {

/// Called tiles: the kinds declared as quads.
#[derive(Clone)]
pub struct Naki {
    pub kan: Vec<Name>,
}

impl Naki {
    /// No quads.
    pub fn new() -> (r: Self)
        ensures
            r.kan@ == Seq::<Name>::empty(),
    {
        Self { kan: Vec::new() }
    }

    /// A copy with the same quads.
    pub(crate) fn duplicate(&self) -> (r: Self)
        ensures
            r.kan@ == self.kan@,
    {
        let mut kan: Vec<Name> = Vec::new();
        let mut i: usize = 0;
        while i < self.kan.len()
            invariant
                0 <= i <= self.kan@.len(),
                kan@ == self.kan@.take(i as int),
            decreases self.kan@.len() - i,
        {
            kan.push(self.kan[i]);
            i = i + 1;
            assert(kan@ =~= self.kan@.take(i as int));
        }
        assert(self.kan@.take(self.kan@.len() as int) =~= self.kan@);
        Self { kan }
    }
}

} // verus!
