//! Name interning pool: each distinct name is stored once.

use vstd::prelude::*;
use crate::strings::{chars_eq, chars_of, str_views};

verus! {

/// A pool that stores each distinct name once.
#[derive(Debug)]
pub struct NamePool {
    names: Vec<String>,
}

impl NamePool {
    /// The names held.
    pub closed spec fn names(&self) -> Set<Seq<char>> {
        str_views(self.names@).to_set()
    }

    /// The number of stored copies.
    pub closed spec fn stored(&self) -> nat {
        self.names@.len()
    }

    /// No name is stored twice.
    pub closed spec fn wf(&self) -> bool {
        forall|a: int, b: int| 0 <= a < b < self.names@.len() ==> self.names@[a]@ != self.names@[b]@
    }

    /// Creates an empty pool.
    pub fn new() -> (r: Self)
        ensures
            r.wf(),
            r.names() == Set::<Seq<char>>::empty(),
            r.stored() == 0,
    {
        let r = NamePool { names: Vec::new() };
        assert(str_views(r.names@).to_set() =~= Set::<Seq<char>>::empty());
        r
    }

    /// Interns a name, returning the stored copy; a name already held is not
    /// stored again.
    pub fn intern(&mut self, name: &str) -> (r: String)
        requires
            old(self).wf(),
        ensures
            final(self).wf(),
            r@ == name@,
            final(self).names() == old(self).names().insert(name@),
            final(self).stored() == old(self).stored() + (if old(self).names().contains(name@) { 0int } else { 1int }),
    {
        let v = chars_of(name);
        let mut i: usize = 0;
        while i < self.names.len()
            invariant
                i <= self.names@.len(),
                v@ == name@,
                self.wf(),
                forall|k: int| 0 <= k < i ==> self.names@[k]@ != name@,
            decreases self.names@.len() - i,
        {
            let w = chars_of(self.names[i].as_str());
            if chars_eq(&w, &v) {
                proof {
                    assert(str_views(self.names@)[i as int] == name@);
                    assert(self.names().insert(name@) =~= self.names());
                }
                return self.names[i].clone();
            }
            i = i + 1;
        }
        proof {
            assert(!self.names().contains(name@)) by {
                if str_views(self.names@).contains(name@) {
                    let k = choose|k: int| 0 <= k < str_views(self.names@).len() && str_views(self.names@)[k] == name@;
                    assert(self.names@[k]@ == name@);
                }
            }
        }
        let ghost old_names = self.names@;
        let stored = name.to_owned();
        self.names.push(name.to_owned());
        proof {
            assert(str_views(self.names@) =~= str_views(old_names).push(name@));
            assert(str_views(self.names@).to_set() =~= str_views(old_names).to_set().insert(name@)) by {
                assert forall|y: Seq<char>| str_views(self.names@).contains(y) <==> str_views(old_names).contains(y) || y == name@ by {
                    if str_views(self.names@).contains(y) {
                        let k = choose|k: int| 0 <= k < str_views(self.names@).len() && str_views(self.names@)[k] == y;
                        if k < old_names.len() {
                            assert(str_views(old_names)[k] == y);
                        }
                    }
                    if str_views(old_names).contains(y) {
                        let k = choose|k: int| 0 <= k < str_views(old_names).len() && str_views(old_names)[k] == y;
                        assert(str_views(self.names@)[k] == y);
                    }
                    if y == name@ {
                        assert(str_views(self.names@)[old_names.len() as int] == y);
                    }
                }
            }
        }
        stored
    }

    /// Whether a name is held.
    pub fn contains(&self, name: &str) -> (r: bool)
        ensures
            r == self.names().contains(name@),
    {
        let v = chars_of(name);
        let mut i: usize = 0;
        while i < self.names.len()
            invariant
                i <= self.names@.len(),
                v@ == name@,
                forall|k: int| 0 <= k < i ==> self.names@[k]@ != name@,
            decreases self.names@.len() - i,
        {
            let w = chars_of(self.names[i].as_str());
            if chars_eq(&w, &v) {
                assert(str_views(self.names@)[i as int] == name@);
                return true;
            }
            i = i + 1;
        }
        proof {
            if str_views(self.names@).contains(name@) {
                let k = choose|k: int| 0 <= k < str_views(self.names@).len() && str_views(self.names@)[k] == name@;
                assert(self.names@[k]@ == name@);
            }
        }
        false
    }

    /// The number of distinct names held.
    pub fn len(&self) -> (r: usize)
        ensures
            r == self.stored(),
    {
        self.names.len()
    }
}

impl Default for NamePool {
    fn default() -> (r: Self)
        ensures
            r.wf(),
            r.names() == Set::<Seq<char>>::empty(),
    {
        Self::new()
    }
}

} // verus!
