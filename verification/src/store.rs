//! The slot arena that owns the bodies.

use vstd::prelude::*;
use crate::body::Body;

verus! {

/// `slab::Slab`, the arena. Nothing is known of a value of it but what
/// `arena_bodies` names.
#[verifier::external_type_specification]
#[verifier::external_body]
#[verifier::reject_recursive_types(T)]
pub struct ExSlab<T>(slab::Slab<T>);

/// The number of bodies that an arena takes at most. With so few slots the
/// arena's storage stays far below the size at which growing it panics.
pub const MAX_BODIES: usize = 0x100_0000;

/// The bodies an arena holds, by key: the occupied slots of the `Slab`.
pub uninterp spec fn arena_bodies(arena: slab::Slab<Body>) -> Map<usize, Body>;

/// `Slab::with_capacity`: a new arena holds nothing. The capacity is kept
/// small, as the call panics on one that its storage cannot have.
#[verifier::external_body]
pub(crate) fn arena_new(capacity: usize) -> (made: slab::Slab<Body>)
    requires
        capacity <= MAX_BODIES,
    ensures
        arena_bodies(made) == (Map::<usize, Body>::empty()),
{
    slab::Slab::with_capacity(capacity)
}

/// `Slab::insert`: the body is stored under a key that was vacant, and
/// every other key keeps its body. The call panics when the storage would
/// grow beyond what a vector can have; it grows only when every slot is
/// occupied, so the bound on the bodies keeps it from that.
#[verifier::external_body]
pub(crate) fn arena_insert(arena: &mut slab::Slab<Body>, body: Body) -> (key: usize)
    requires
        arena_bodies(*old(arena)).dom().finite(),
        arena_bodies(*old(arena)).dom().len() < MAX_BODIES,
    ensures
        !arena_bodies(*old(arena)).contains_key(key),
        arena_bodies(*final(arena)) == arena_bodies(*old(arena)).insert(key, body),
{
    arena.insert(body)
}

/// `Slab::len`: the number of occupied slots.
#[verifier::external_body]
pub(crate) fn arena_len(arena: &slab::Slab<Body>) -> (count: usize)
    requires
        arena_bodies(*arena).dom().finite(),
    ensures
        count == arena_bodies(*arena).dom().len(),
{
    arena.len()
}

/// `Slab::get`: the body under `key`, if the key is occupied.
#[verifier::external_body]
pub(crate) fn arena_get(arena: &slab::Slab<Body>, key: usize) -> (found: Option<&Body>)
    ensures
        found.is_some() == arena_bodies(*arena).contains_key(key),
        found.is_some() ==> *found.unwrap() == arena_bodies(*arena)[key],
{
    arena.get(key)
}

/// `Slab::get_mut`: a mutable borrow of the body under `key`, if the key is
/// occupied. Whatever the borrower writes replaces that body; nothing else changes.
#[verifier::external_body]
pub(crate) fn arena_get_mut(arena: &mut slab::Slab<Body>, key: usize) -> (found: Option<&mut Body>)
    ensures
        found.is_some() == arena_bodies(*old(arena)).contains_key(key),
        found.is_some() ==> *found.unwrap() == arena_bodies(*old(arena))[key]
            && arena_bodies(*final(arena)) == arena_bodies(*old(arena)).insert(key, *final(found.unwrap())),
        found.is_none() ==> arena_bodies(*final(arena)) == arena_bodies(*old(arena)),
{
    arena.get_mut(key)
}

/// `Slab::try_remove`: takes the body under `key` out, if the key is
/// occupied. Every other key keeps its body.
#[verifier::external_body]
pub(crate) fn arena_remove(arena: &mut slab::Slab<Body>, key: usize) -> (removed: Option<Body>)
    ensures
        removed.is_some() == arena_bodies(*old(arena)).contains_key(key),
        removed.is_some() ==> removed.unwrap() == arena_bodies(*old(arena))[key],
        arena_bodies(*final(arena)) == arena_bodies(*old(arena)).remove(key),
{
    arena.try_remove(key)
}

/// `keys` lists the members of `domain` in increasing order.
pub open spec fn is_key_order(keys: Seq<usize>, domain: Set<usize>) -> bool {
    &&& forall|i: int, j: int| 0 <= i < j < keys.len() ==> keys[i] < keys[j]
    &&& forall|k: usize| domain.contains(k) <==> keys.contains(k)
}

/// The members of a set of keys in increasing order.
pub open spec fn key_order(domain: Set<usize>) -> Seq<usize> {
    choose|keys: Seq<usize>| is_key_order(keys, domain)
}

/// `Slab::iter`: the keys of the occupied slots, in increasing order, as the
/// iterator yields them.
#[verifier::external_body]
pub(crate) fn arena_keys(arena: &slab::Slab<Body>) -> (keys: Vec<usize>)
    ensures
        is_key_order(keys@, arena_bodies(*arena).dom()),
{
    arena.iter().map(|(key, _)| key).collect()
}

proof fn lemma_key_orders_agree(s: Seq<usize>, t: Seq<usize>, domain: Set<usize>, n: nat)
    requires
        is_key_order(s, domain),
        is_key_order(t, domain),
        n <= s.len(),
    ensures
        n <= t.len(),
        forall|j: int| 0 <= j < n ==> s[j] == t[j],
    decreases n,
{
    if n > 0 {
        lemma_key_orders_agree(s, t, domain, (n - 1) as nat);
        let i = n - 1;
        assert(s.contains(s[i]));
        assert(t.contains(s[i]));
        let k = choose|k: int| 0 <= k < t.len() && t[k] == s[i];
        if k < i {
            assert(s[k] == t[k]);
            assert(s[k] < s[i]);
        }
        assert(t.contains(t[i]));
        assert(s.contains(t[i]));
        let k2 = choose|k2: int| 0 <= k2 < s.len() && s[k2] == t[i];
        if k2 < i {
            assert(s[k2] == t[k2]);
            assert(t[k2] < t[i]);
        }
        assert(t[i] <= t[k]);
        assert(s[i] <= s[k2]);
    }
}

/// A set of keys has one increasing order.
pub proof fn lemma_key_order_unique(keys: Seq<usize>, domain: Set<usize>)
    requires
        is_key_order(keys, domain),
    ensures
        keys == key_order(domain),
{
    let other = key_order(domain);
    lemma_key_orders_agree(keys, other, domain, keys.len());
    lemma_key_orders_agree(other, keys, domain, other.len());
}

proof fn lemma_has_greatest(domain: Set<usize>) -> (top: usize)
    requires
        domain.finite(),
        domain.len() > 0,
    ensures
        domain.contains(top),
        forall|k: usize| domain.contains(k) ==> k <= top,
    decreases domain.len(),
{
    let x = domain.choose();
    let rest = domain.remove(x);
    if rest.len() == 0 {
        assert forall|k: usize| domain.contains(k) implies k <= x by {
            if k != x {
                assert(rest.contains(k));
            }
        }
        x
    } else {
        let y = lemma_has_greatest(rest);
        if x > y {
            assert forall|k: usize| domain.contains(k) implies k <= x by {
                if k != x {
                    assert(rest.contains(k));
                }
            }
            x
        } else {
            assert forall|k: usize| domain.contains(k) implies k <= y by {
                if k != x {
                    assert(rest.contains(k));
                }
            }
            y
        }
    }
}

proof fn lemma_some_key_order(domain: Set<usize>) -> (keys: Seq<usize>)
    requires
        domain.finite(),
    ensures
        is_key_order(keys, domain),
    decreases domain.len(),
{
    if domain.len() == 0 {
        let keys = Seq::<usize>::empty();
        assert forall|k: usize| domain.contains(k) <==> keys.contains(k) by {
            if domain.contains(k) {
                assert(domain.len() > 0);
            }
        }
        keys
    } else {
        let top = lemma_has_greatest(domain);
        let front = lemma_some_key_order(domain.remove(top));
        let keys = front.push(top);
        assert forall|i: int, j: int| 0 <= i < j < keys.len() implies keys[i] < keys[j] by {
            assert(front.contains(front[i]));
        }
        assert forall|k: usize| domain.contains(k) <==> keys.contains(k) by {
            if domain.contains(k) {
                if k == top {
                    assert(keys[front.len() as int] == k);
                } else {
                    let i = choose|i: int| 0 <= i < front.len() && front[i] == k;
                    assert(keys[i] == k);
                }
            }
            if keys.contains(k) {
                let i = choose|i: int| 0 <= i < keys.len() && keys[i] == k;
                if i < front.len() {
                    assert(front.contains(front[i]));
                }
            }
        }
        keys
    }
}

/// The keys of finitely many bodies have an increasing order.
pub proof fn lemma_key_order_exists(domain: Set<usize>)
    requires
        domain.finite(),
    ensures
        is_key_order(key_order(domain), domain),
{
    let keys = lemma_some_key_order(domain);
}

} // verus!
