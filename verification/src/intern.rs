//! String interning: each distinct string is stored once and handed out as a
//! shared handle.

use crate::error::Error;
use std::sync::Arc;
use vstd::hash_map::StringHashMap;
use vstd::prelude::*;

verus! {

/// Deduplicates strings to reduce memory usage for large graphs.
pub struct StringInterner {
    pool: StringHashMap<Arc<String>>,
}

/// Another handle to the same shared string, from `Arc::clone`; it points at
/// the same value.
#[verifier::external_body]
fn share(a: &Arc<String>) -> (r: Arc<String>)
    ensures
        r == *a,
{
    Arc::clone(a)
}

impl StringInterner {
    /// The strings interned so far.
    pub closed spec fn interned(&self) -> Set<Seq<char>> {
        self.pool@.dom()
    }

    /// Every handle in the pool holds its own key.
    pub closed spec fn wf(&self) -> bool {
        forall|k: Seq<char>| #[trigger] self.pool@.contains_key(k) ==> (*self.pool@[k])@ == k
    }

    /// Create a new empty interner.
    pub fn new() -> (s: Self)
        ensures
            s.wf(),
            s.interned() == Set::<Seq<char>>::empty(),
    {
        StringInterner { pool: StringHashMap::new() }
    }

    /// Intern a string, returning a shared handle to its single stored copy.
    pub fn intern(&mut self, value: &str) -> (r: Result<Arc<String>, Error>)
        requires
            old(self).wf(),
        ensures
            final(self).wf(),
            final(self).interned() == old(self).interned().insert(value@),
            r matches Ok(handle) && (*handle)@ == value@,
    {
        match self.pool.get(value) {
            Some(existing) => {
                let h = share(existing);
                proof {
                    assert(self.interned().insert(value@) =~= self.interned());
                }
                Ok(h)
            },
            None => {
                let handle = Arc::new(value.to_owned());
                let stored = share(&handle);
                self.pool.insert(value.to_owned(), stored);
                Ok(handle)
            },
        }
    }

    /// Ensure a string is in the intern pool; strings keep their own storage,
    /// so this leaves both the string and the pool as they are.
    pub fn intern_string(&self, value: &mut String)
        ensures
            *final(value) == *old(value),
    {
    }

    /// Number of unique interned strings.
    pub fn len(&self) -> (n: usize)
        ensures
            n == self.interned().len(),
    {
        self.pool.len()
    }

    /// Whether the pool is empty.
    pub fn is_empty(&self) -> (b: bool)
        ensures
            b == (self.interned().len() == 0),
    {
        self.pool.len() == 0
    }
}

} // verus!
