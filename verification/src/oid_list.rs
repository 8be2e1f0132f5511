//! A list of object ids that can be asked quickly which ids it holds.
use crate::byte_map::{lemma_bind, lookup, ByteMap};
use crate::bytes::copy_bytes;
use crate::object::{lemma_oid, ObjectSha};
use vstd::prelude::*;

verus! {

/// A list of object ids.
pub struct OidList {
    order: Vec<ObjectSha>,
    seen: ByteMap<()>,
}

impl View for OidList {
    type V = Seq<ObjectSha>;

    closed spec fn view(&self) -> Seq<ObjectSha> {
        self.order@
    }
}

impl OidList {
    /// The keys are those of the listed ids.
    #[verifier::type_invariant]
    pub closed spec fn keyed(self) -> bool {
        forall|o: ObjectSha| #[trigger] self.order@.contains(o) <==> lookup(self.seen@, o@) is Some
    }

    /// A list without ids.
    pub fn new() -> (r: OidList)
        ensures
            r@ == Seq::<ObjectSha>::empty(),
    {
        let order: Vec<ObjectSha> = Vec::new();
        let seen: ByteMap<()> = ByteMap::new();
        proof {
            assert forall|o: ObjectSha| !(#[trigger] order@.contains(o)) && lookup(
                seen@,
                o@,
            ) is None by {
                assert(seen@.len() == 0);
            }
            assert(order@ =~= Seq::empty());
        }
        OidList { order, seen }
    }

    /// The number of ids.
    pub fn len(&self) -> (r: usize)
        ensures
            r == self@.len(),
    {
        self.order.len()
    }

    /// The id at position `i`.
    pub fn at(&self, i: usize) -> (r: ObjectSha)
        requires
            i < self@.len(),
        ensures
            r == self@[i as int],
    {
        self.order[i]
    }

    /// Whether an id is listed.
    pub fn contains(&self, o: &ObjectSha) -> (r: bool)
        ensures
            r == self@.contains(*o),
    {
        proof {
            use_type_invariant(&*self);
        }
        self.seen.contains(o.as_bytes())
    }

    /// Appends an id.
    pub fn add(&mut self, o: ObjectSha)
        ensures
            final(self)@ == old(self)@.push(o),
    {
        let order: Vec<ObjectSha> = Vec::new();
        let seen: ByteMap<()> = ByteMap::new();
        proof {
            use_type_invariant(&*self);
            assert forall|x: ObjectSha| !(#[trigger] order@.contains(x)) && lookup(
                seen@,
                x@,
            ) is None by {
                assert(seen@.len() == 0);
            }
        }
        let mut empty = OidList { order, seen };
        std::mem::swap(&mut empty, self);
        let OidList { order: mut ids, seen: mut keys } = empty;
        proof {
            use_type_invariant(&keys);
            lemma_bind(keys@, o@, ());
        }
        let ghost k0 = keys@;
        let ghost i0 = ids@;
        keys.insert(copy_bytes(o.as_bytes()), ());
        ids.push(o);
        proof {
            assert forall|x: ObjectSha| #[trigger] ids@.contains(x) <==> lookup(
                keys@,
                x@,
            ) is Some by {
                lemma_oid(x);
                lemma_oid(o);
                assert(i0.contains(x) <==> lookup(k0, x@) is Some);
                if x == o {
                    assert(ids@[i0.len() as int] == o);
                } else {
                    if i0.contains(x) {
                        let i = choose|i: int| 0 <= i < i0.len() && i0[i] == x;
                        assert(ids@[i] == x);
                    }
                    if ids@.contains(x) {
                        let i = choose|i: int| 0 <= i < ids@.len() && ids@[i] == x;
                        assert(i0[i] == x);
                    }
                }
            }
        }
        *self = OidList { order: ids, seen: keys };
    }
}

} // verus!
