use vstd::prelude::*;

verus! {

/// Whether no name occurs twice in `names`.
pub open spec fn distinct(names: Seq<Seq<char>>) -> bool {
    forall|i: int, j: int| 0 <= i < j < names.len() ==> names[i] != names[j]
}

/// The position of `key` in `names`, if it occurs there.
pub open spec fn lookup(names: Seq<Seq<char>>, key: Seq<char>) -> Option<int> {
    if exists|i: int| 0 <= i < names.len() && names[i] == key {
        Some(choose|i: int| 0 <= i < names.len() && names[i] == key)
    } else {
        None
    }
}

/// In a sequence without repetitions a name is found exactly where it stands.
pub proof fn lemma_lookup_found(names: Seq<Seq<char>>, key: Seq<char>, i: int)
    requires
        distinct(names),
        0 <= i < names.len(),
        names[i] == key,
    ensures
        lookup(names, key) == Some(i),
{
    let j = choose|j: int| 0 <= j < names.len() && names[j] == key;
    if j < i {
        assert(names[j] != names[i]);
    } else if i < j {
        assert(names[i] != names[j]);
    }
}

/// A table of values by name, in the order the names were added.
#[derive(Debug)]
pub struct Table<V> {
    keys: Vec<String>,
    vals: Vec<V>,
}

impl<V> Table<V> {
    /// The names, in insertion order.
    pub closed spec fn names(&self) -> Seq<Seq<char>> {
        self.keys@.map_values(|k: String| k@)
    }

    /// The values, each at the position of its name.
    pub closed spec fn values(&self) -> Seq<V> {
        self.vals@
    }

    /// Every name has one value and no name occurs twice.
    pub open spec fn wf(&self) -> bool {
        &&& self.names().len() == self.values().len()
        &&& distinct(self.names())
    }

    /// A table without names.
    pub fn new() -> (t: Self)
        ensures
            t.wf(),
            t.names() == Seq::<Seq<char>>::empty(),
            t.values() == Seq::<V>::empty(),
    {
        Table { keys: Vec::new(), vals: Vec::new() }
    }

    /// How many names the table holds.
    pub fn len(&self) -> (n: usize)
        requires
            self.wf(),
        ensures
            n == self.names().len(),
    {
        self.keys.len()
    }

    /// The position of `key`, if the table holds it.
    pub fn find(&self, key: &String) -> (r: Option<usize>)
        requires
            self.wf(),
        ensures
            match r {
                Some(i) => lookup(self.names(), key@) == Some(i as int) && i < self.names().len(),
                None => lookup(self.names(), key@) is None,
            },
    {
        let mut i: usize = 0;
        while i < self.keys.len()
            invariant
                i <= self.keys.len(),
                self.wf(),
                forall|j: int| 0 <= j < i ==> self.names()[j] != key@,
            decreases self.keys.len() - i,
        {
            if self.keys[i] == *key {
                proof {
                    lemma_lookup_found(self.names(), key@, i as int);
                }
                return Some(i);
            }
            i += 1;
        }
        None
    }

    /// Appends a name that the table does not hold yet.
    pub fn push(&mut self, key: String, value: V)
        requires
            old(self).wf(),
            lookup(old(self).names(), key@) is None,
        ensures
            final(self).wf(),
            final(self).names() == old(self).names().push(key@),
            final(self).values() == old(self).values().push(value),
    {
        self.keys.push(key);
        self.vals.push(value);
        proof {
            assert(self.names() =~= old(self).names().push(key@));
            let names = old(self).names();
            assert forall|i: int| 0 <= i < names.len() implies names[i] != key@ by {
                if names[i] == key@ {
                    assert(lookup(names, key@) is Some);
                }
            }
        }
    }

    /// The value at position `i`.
    pub fn get(&self, i: usize) -> (v: &V)
        requires
            self.wf(),
            i < self.names().len(),
        ensures
            *v == self.values()[i as int],
    {
        &self.vals[i]
    }

    /// The name at position `i`.
    pub fn name(&self, i: usize) -> (k: &String)
        requires
            self.wf(),
            i < self.names().len(),
        ensures
            k@ == self.names()[i as int],
    {
        &self.keys[i]
    }

    /// The value at position `i`, to be changed in place.
    pub fn get_mut(&mut self, i: usize) -> (v: &mut V)
        requires
            old(self).wf(),
            i < old(self).names().len(),
        ensures
            *v == old(self).values()[i as int],
            final(self).wf(),
            final(self).names() == old(self).names(),
            final(self).values() == old(self).values().update(i as int, *final(v)),
    {
        &mut self.vals[i]
    }
}

impl<V: Copy> Clone for Table<V> {
    fn clone(&self) -> (copy: Self)
        ensures
            copy.names() == self.names(),
            copy.values() == self.values(),
    {
        let mut keys: Vec<String> = Vec::new();
        let mut vals: Vec<V> = Vec::new();
        let mut i: usize = 0;
        while i < self.keys.len()
            invariant
                i <= self.keys.len(),
                keys@ =~= self.keys@.take(i as int),
            decreases self.keys.len() - i,
        {
            keys.push(self.keys[i].clone());
            i += 1;
        }
        let mut j: usize = 0;
        while j < self.vals.len()
            invariant
                j <= self.vals.len(),
                vals@ =~= self.vals@.take(j as int),
            decreases self.vals.len() - j,
        {
            vals.push(self.vals[j]);
            j += 1;
        }
        assert(keys@ =~= self.keys@);
        assert(vals@ =~= self.vals@);
        Table { keys, vals }
    }
}

} // verus!
