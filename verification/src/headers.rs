//! The header mapping: names and values as they stood on the wire.
//!
//! Entries are kept in arrival order; the mapping the collection denotes is
//! [`header_map`] of those entries, under which a later entry for the same
//! name overwrites an earlier one.  Lookup is proved to agree with that
//! mapping.

use vstd::prelude::*;

use crate::model::header_map;
use crate::scan::bytes_eq;

verus! {

/// A mapping from header name to header value, keys as literally parsed
/// from the stream, last write wins on duplicate names.
#[derive(Debug)]
pub struct Headers {
    entries: Vec<(Vec<u8>, Vec<u8>)>,
}

impl Headers {
    /// The entries in arrival order, as byte sequences.
    pub closed spec fn entries(self) -> Seq<(Seq<u8>, Seq<u8>)> {
        Seq::new(self.entries@.len(), |i: int| (self.entries@[i].0@, self.entries@[i].1@))
    }

    /// The mapping the entries denote.
    pub open spec fn hmap(self) -> Map<Seq<u8>, Seq<u8>> {
        header_map(self.entries())
    }

    /// An empty mapping.
    pub fn new() -> (r: Headers)
        ensures
            r.entries() == Seq::<(Seq<u8>, Seq<u8>)>::empty(),
    {
        let r = Headers { entries: Vec::new() };
        proof {
            assert(r.entries() =~= Seq::<(Seq<u8>, Seq<u8>)>::empty());
        }
        r
    }

    /// Records `value` under `name`, overwriting any earlier value for the
    /// same name in the denoted mapping.
    pub fn insert(&mut self, name: Vec<u8>, value: Vec<u8>)
        ensures
            final(self).entries() == old(self).entries().push((name@, value@)),
            final(self).hmap() == old(self).hmap().insert(name@, value@),
    {
        let ghost k = name@;
        let ghost v = value@;
        self.entries.push((name, value));
        proof {
            assert(self.entries() =~= old(self).entries().push((k, v)));
            assert(self.entries().drop_last() =~= old(self).entries());
        }
    }

    /// The value recorded under `name`, if any: the last entry with that
    /// name, which is what the denoted mapping holds.
    pub fn get<'a>(&'a self, name: &Vec<u8>) -> (r: Option<&'a Vec<u8>>)
        ensures
            match r {
                Some(v) => self.hmap().contains_key(name@) && v@ == self.hmap()[name@],
                None => !self.hmap().contains_key(name@),
            },
    {
        let mut i: usize = self.entries.len();
        loop
            invariant
                i <= self.entries@.len(),
                forall|j: int| i <= j < self.entries().len() ==> self.entries()[j].0 != name@,
            decreases i,
        {
            if i == 0 {
                proof {
                    lemma_header_map_absent(self.entries(), name@);
                }
                return None;
            }
            i = i - 1;
            if bytes_eq(&self.entries[i].0, name) {
                proof {
                    lemma_header_map_last_wins(self.entries(), i as int, name@);
                }
                return Some(&self.entries[i].1);
            }
        }
    }
}

/// A name that no entry carries is not in the denoted mapping.
proof fn lemma_header_map_absent(entries: Seq<(Seq<u8>, Seq<u8>)>, name: Seq<u8>)
    requires
        forall|j: int| 0 <= j < entries.len() ==> entries[j].0 != name,
    ensures
        !header_map(entries).contains_key(name),
    decreases entries.len(),
{
    if entries.len() > 0 {
        let t = entries.drop_last();
        assert forall|j: int| 0 <= j < t.len() implies t[j].0 != name by {
            assert(entries[j].0 != name);
        }
        lemma_header_map_absent(t, name);
        assert(entries.last().0 != name);
    }
}

/// The denoted mapping holds, for a name, the value of its last entry.
proof fn lemma_header_map_last_wins(entries: Seq<(Seq<u8>, Seq<u8>)>, i: int, name: Seq<u8>)
    requires
        0 <= i < entries.len(),
        entries[i].0 == name,
        forall|j: int| i < j < entries.len() ==> entries[j].0 != name,
    ensures
        header_map(entries).contains_key(name),
        header_map(entries)[name] == entries[i].1,
    decreases entries.len(),
{
    let t = entries.drop_last();
    if i == entries.len() - 1 {
    } else {
        assert forall|j: int| i < j < t.len() implies t[j].0 != name by {
            assert(entries[j].0 != name);
        }
        lemma_header_map_last_wins(t, i, name);
        assert(entries.last().0 != name);
    }
}

} // verus!
