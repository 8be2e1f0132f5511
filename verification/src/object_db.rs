//! The objects that have been loaded, in their loose form.
use crate::byte_map::{lemma_bind, lemma_rank, lookup, ByteMap};
use crate::bytes::copy_bytes;
use crate::object::{lemma_oid, ObjectError, ObjectSha};
use crate::outside::{zlib_inflate, zlib_inflated};
use vstd::prelude::*;

verus! {

/// A set of objects: the loose form of each, under its id. It need not hold all the objects of a
/// repository: what asks for one that is not here gets to know its id, so that it can be loaded.
pub struct ObjectDb {
    objects: ByteMap<Vec<u8>>,
}

impl View for ObjectDb {
    type V = Map<ObjectSha, Seq<u8>>;

    closed spec fn view(&self) -> Map<ObjectSha, Seq<u8>> {
        Map::new(
            |o: ObjectSha| lookup(self.objects@, o@) is Some,
            |o: ObjectSha| lookup(self.objects@, o@)->0@,
        )
    }
}

impl ObjectDb {
    /// A store with no objects.
    pub fn new() -> (r: ObjectDb)
        ensures
            r@ == Map::<ObjectSha, Seq<u8>>::empty(),
            r.count() == 0,
    {
        let r = ObjectDb { objects: ByteMap::new() };
        assert(r@ =~= Map::empty());
        r
    }

    /// How many objects the store holds.
    pub closed spec fn count(&self) -> nat {
        self.objects@.len()
    }

    /// How many objects the store holds.
    pub fn len(&self) -> (r: usize)
        ensures
            r == self.count(),
    {
        self.objects.len()
    }

    /// The loose form of an object.
    pub fn get(&self, oid: &ObjectSha) -> (r: Option<&Vec<u8>>)
        ensures
            (match r {
                Some(raw) => self@.contains_key(*oid) && raw@ == self@[*oid],
                None => !self@.contains_key(*oid),
            }),
    {
        self.objects.get(oid.as_bytes())
    }

    /// Whether the store holds an object.
    pub fn contains(&self, oid: &ObjectSha) -> (r: bool)
        ensures
            r == self@.contains_key(*oid),
    {
        self.objects.contains(oid.as_bytes())
    }

    /// Adds an object in its loose form.
    pub fn insert(&mut self, oid: ObjectSha, raw: Vec<u8>)
        ensures
            final(self)@ == old(self)@.insert(oid, raw@),
            final(self).count() == old(self).count() + (if old(self)@.contains_key(oid) {
                0int
            } else {
                1
            }),
    {
        proof {
            use_type_invariant(&self.objects);
            lemma_rank(self.objects@, oid@);
            lemma_bind(self.objects@, oid@, raw);
            assert forall|o: ObjectSha| o != oid implies o@ != oid@ by {
                lemma_oid(o);
                lemma_oid(oid);
            }
        }
        let ghost raw_view = raw@;
        self.objects.insert(copy_bytes(oid.as_bytes()), raw);
        assert(self@ =~= old(self)@.insert(oid, raw_view));
    }

    /// Adds an object as it is stored in a file: as a zlib stream of its loose form.
    pub fn insert_compressed(&mut self, oid: ObjectSha, file: &[u8]) -> (r: Result<(), ObjectError>)
        ensures
            (match zlib_inflated(file@) {
                Some((raw, _)) => r is Ok && final(self)@ == old(self)@.insert(oid, raw)
                    && final(self).count() == old(self).count() + (if old(self)@.contains_key(
                    oid,
                ) {
                    0int
                } else {
                    1
                }),
                None => r == Err::<(), ObjectError>(ObjectError::Corrupt) && *final(self) == *old(
                    self,
                ),
            }),
    {
        match crate::outside::zlib_inflate(file) {
            Some((raw, _)) => {
                self.insert(oid, raw);
                Ok(())
            },
            None => Err(ObjectError::Corrupt),
        }
    }
}

/// There are no more distinct objects in a store than it counts.
pub proof fn lemma_count(db: &ObjectDb, s: Seq<ObjectSha>)
    requires
        s.no_duplicates(),
        forall|i: int| 0 <= i < s.len() ==> db@.contains_key(#[trigger] s[i]),
    ensures
        s.len() <= db.count(),
{
    let m = db.objects@;
    let ranks = Seq::new(s.len(), |i: int| crate::byte_map::rank(m, s[i]@));
    assert forall|i: int| 0 <= i < s.len() implies 0 <= #[trigger] ranks[i] < m.len()
        && m[ranks[i]].0 == s[i]@ by {
        assert(db@.contains_key(s[i]));
    }
    assert(ranks.no_duplicates()) by {
        assert forall|i: int, j: int|
            0 <= i < ranks.len() && 0 <= j < ranks.len() && i != j implies ranks[i] != ranks[j] by {
            lemma_oid(s[i]);
            lemma_oid(s[j]);
        }
    }
    ranks.unique_seq_to_set();
    vstd::set_lib::lemma_int_range(0, m.len() as int);
    assert(ranks.to_set().subset_of(vstd::set_lib::set_int_range(0, m.len() as int))) by {
        assert forall|x: int| ranks.to_set().contains(x) implies vstd::set_lib::set_int_range(
            0,
            m.len() as int,
        ).contains(x) by {
            let i = choose|i: int| 0 <= i < ranks.len() && ranks[i] == x;
            assert(0 <= ranks[i] < m.len());
        }
    }
    vstd::set_lib::lemma_len_subset(
        ranks.to_set(),
        vstd::set_lib::set_int_range(0, m.len() as int),
    );
}

} // verus!
