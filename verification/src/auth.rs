//! The volatile stable-maintenance authorization set. Unlike the admin
//! table, it lives in ordinary memory and must be re-populated after an
//! upgrade by explicit calls.
use vstd::prelude::*;

verus! {

/// A set of identities, each given by its raw principal bytes.
pub struct IdentitySet {
    pub ids: Vec<Vec<u8>>,
}

impl View for IdentitySet {
    type V = Set<Seq<u8>>;

    open spec fn view(&self) -> Set<Seq<u8>> {
        Set::new(|x: Seq<u8>| exists|j: int| 0 <= j < self.ids@.len() && self.ids@[j]@ == x)
    }
}

impl IdentitySet {
    pub fn new() -> (r: IdentitySet)
        ensures
            r@ == Set::<Seq<u8>>::empty(),
    {
        let r = IdentitySet { ids: Vec::new() };
        proof {
            assert(r@ =~= Set::<Seq<u8>>::empty());
        }
        r
    }

    pub fn contains(&self, id: &Vec<u8>) -> (r: bool)
        ensures
            r == self@.contains(id@),
    {
        let mut i: usize = 0;
        while i < self.ids.len()
            invariant
                i <= self.ids@.len(),
                forall|j: int| 0 <= j < i ==> (#[trigger] self.ids@[j])@ != id@,
            decreases self.ids@.len() - i,
        {
            match crate::store::lex_cmp(&self.ids[i], id) {
                crate::store::KeyOrder::Equal => {
                    return true;
                },
                _ => {
                },
            }
            i += 1;
        }
        false
    }

    /// Idempotent: inserting a member leaves the set as it is.
    pub fn insert(&mut self, id: &Vec<u8>)
        ensures
            final(self)@ == old(self)@.insert(id@),
    {
        if !self.contains(id) {
            self.ids.push(crate::codec::copy_bytes(id));
            proof {
                assert forall|x: Seq<u8>| final(self)@.contains(x) == old(self)@.insert(
                    id@,
                ).contains(x) by {
                    if final(self)@.contains(x) {
                        let j = choose|j: int|
                            0 <= j < self.ids@.len() && (#[trigger] self.ids@[j])@ == x;
                        if j < old(self).ids@.len() {
                            assert(old(self).ids@[j]@ == x);
                        }
                    }
                    if old(self)@.insert(id@).contains(x) {
                        if x == id@ {
                            assert(self.ids@[old(self).ids@.len() as int]@ == x);
                        } else {
                            let j = choose|j: int|
                                0 <= j < old(self).ids@.len() && (#[trigger] old(
                                    self,
                                ).ids@[j])@ == x;
                            assert(self.ids@[j]@ == x);
                        }
                    }
                }
                assert(final(self)@ =~= old(self)@.insert(id@));
            }
        } else {
            proof {
                assert(final(self)@ =~= old(self)@.insert(id@));
            }
        }
    }
}

} // verus!
