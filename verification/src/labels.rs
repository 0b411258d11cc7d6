//! A table from label names to code addresses.
use vstd::prelude::*;

verus! {

/// The map that a list of bindings describes: a later binding of a name
/// replaces an earlier one.
pub open spec fn bindings_map(entries: Seq<(String, u16)>) -> Map<Seq<char>, u16>
    decreases entries.len(),
{
    if entries.len() == 0 {
        Map::empty()
    } else {
        let last = entries.last();
        bindings_map(entries.drop_last()).insert(last.0@, last.1)
    }
}

/// Label names and the addresses they stand for.
pub struct LabelMap {
    entries: Vec<(String, u16)>,
}

impl View for LabelMap {
    type V = Map<Seq<char>, u16>;

    closed spec fn view(&self) -> Map<Seq<char>, u16> {
        bindings_map(self.entries@)
    }
}

/// The value of the last binding of `name` in `entries`, found by a search
/// from index `i` downwards.
proof fn lemma_bindings_search(entries: Seq<(String, u16)>, name: Seq<char>, i: int)
    requires
        0 <= i <= entries.len(),
        forall|j: int| i <= j < entries.len() ==> #[trigger] entries[j].0@ != name,
    ensures
        bindings_map(entries).contains_key(name) == bindings_map(entries.take(i)).contains_key(name),
        bindings_map(entries).contains_key(name) ==> bindings_map(entries)[name] == bindings_map(
            entries.take(i),
        )[name],
    decreases entries.len() - i,
{
    if i < entries.len() {
        let shorter = entries.drop_last();
        assert forall|j: int| i <= j < shorter.len() implies #[trigger] shorter[j].0@ != name by {
            assert(shorter[j] == entries[j]);
        }
        lemma_bindings_search(shorter, name, i);
        assert(shorter.take(i) =~= entries.take(i));
    } else {
        assert(entries.take(i) =~= entries);
    }
}

/// Binding a name makes a lookup of that name give the new address, and
/// leaves every other name as it was.
pub proof fn lemma_lookup_after_bind(entries: Seq<(String, u16)>, name: String, address: u16, other: Seq<char>)
    requires
        other != name@,
    ensures
        bindings_map(entries.push((name, address))).contains_key(name@),
        bindings_map(entries.push((name, address)))[name@] == address,
        bindings_map(entries.push((name, address))).contains_key(other) == bindings_map(
            entries,
        ).contains_key(other),
        bindings_map(entries).contains_key(other) ==> bindings_map(entries.push((name, address)))[other]
            == bindings_map(entries)[other],
{
    assert(entries.push((name, address)).drop_last() =~= entries);
}

impl LabelMap {
    /// An empty table.
    pub fn new() -> (m: LabelMap)
        ensures
            m@ == Map::<Seq<char>, u16>::empty(),
    {
        LabelMap { entries: Vec::new() }
    }

    /// Binds `name` to `address`, replacing an earlier binding of the name.
    pub fn insert(&mut self, name: String, address: u16)
        ensures
            final(self)@ == old(self)@.insert(name@, address),
    {
        let ghost old_entries = self.entries@;
        self.entries.push((name, address));
        proof {
            assert(self.entries@.drop_last() =~= old_entries);
        }
    }

    /// The address bound to `name`, if any.
    pub fn get(&self, name: &String) -> (r: Option<u16>)
        ensures
            r == (if self@.contains_key(name@) {
                Some(self@[name@])
            } else {
                None
            }),
    {
        let mut i: usize = self.entries.len();
        while i > 0
            invariant
                i <= self.entries@.len(),
                forall|j: int| i <= j < self.entries@.len() ==> #[trigger] self.entries@[j].0@ != name@,
            decreases i,
        {
            let entry = &self.entries[i - 1];
            if entry.0 == *name {
                proof {
                    let e = self.entries@;
                    lemma_bindings_search(e, name@, i as int);
                    assert(e.take(i as int).drop_last() =~= e.take(i - 1));
                }
                return Some(entry.1);
            }
            i = i - 1;
        }
        proof {
            lemma_bindings_search(self.entries@, name@, 0);
        }
        None
    }

    /// Whether `name` is bound.
    pub fn contains_key(&self, name: &String) -> (r: bool)
        ensures
            r == self@.contains_key(name@),
    {
        match self.get(name) {
            Some(_) => true,
            None => false,
        }
    }
}

} // verus!
