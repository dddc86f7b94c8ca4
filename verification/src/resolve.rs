//! Resolution: pushing solid bodies out of what they overlap.

use vstd::prelude::*;
use crate::body::Body;
use crate::shape::Contact;
use crate::store::arena_get_mut;
use crate::vector::Vector;
use crate::world::{ContactInfo, PhysicsWorld, WorldState};
use crate::narrow::contacts_live;

verus! {

/// A body after a contact has been resolved: it is moved by the contact's
/// correction, and it no longer moves along an axis on which the contact's
/// normal is not zero.
pub open spec fn resolved_body(body: Body, contact: Contact) -> Body {
    Body {
        position: body.position.advanced(contact.correction(), 1),
        velocity: Vector {
            x: if contact.normal.x != 0 {
                0
            } else {
                body.velocity.x
            },
            y: if contact.normal.y != 0 {
                0
            } else {
                body.velocity.y
            },
        },
        ..body
    }
}

/// The bodies after the first `n` contacts have been resolved, one after
/// the other. Only the first body of a contact is pushed, along the
/// manifold's best axis.
pub open spec fn resolve_all(bodies: Map<usize, Body>, contacts: Seq<ContactInfo>, n: nat) -> Map<usize, Body>
    decreases n,
{
    if n == 0 {
        bodies
    } else {
        let before = resolve_all(bodies, contacts, (n - 1) as nat);
        let (h1, _h2, manifold) = contacts[n - 1];
        before.insert(h1, resolved_body(before[h1], manifold.best()))
    }
}

impl Body {
    /// Resolves a contact on this body.
    pub fn resolve_contact(&mut self, contact: &Contact)
        ensures
            *final(self) == resolved_body(*old(self), *contact),
    {
        self.position = self.position.plus(contact.push_out());
        if contact.normal.x != 0 {
            self.velocity.x = 0;
        }
        if contact.normal.y != 0 {
            self.velocity.y = 0;
        }
    }
}

impl PhysicsWorld {
    /// Resolves the recorded contacts in the order in which they were recorded.
    pub(crate) fn resolve(&mut self)
        requires
            old(self).wf(),
            contacts_live(old(self)@),
        ensures
            final(self).wf(),
            final(self)@.bodies.dom() == old(self)@.bodies.dom(),
            final(self)@ == (WorldState {
                bodies: resolve_all(old(self)@.bodies, old(self)@.contacts, old(self)@.contacts.len()),
                ..old(self)@
            }),
    {
        let ghost start = self@;
        let mut i: usize = 0;
        while i < self.manifolds.len()
            invariant
                i <= self.manifolds.len(),
                self.wf(),
                contacts_live(start),
                self@.bodies.dom() == start.bodies.dom(),
                self@ == (WorldState { bodies: resolve_all(start.bodies, start.contacts, i as nat), ..start }),
            decreases self.manifolds.len() - i,
        {
            let (h1, _h2, manifold) = self.manifolds[i];
            let contact = manifold.best_contact();
            let found = arena_get_mut(&mut self.bodies, h1);
            let body = found.unwrap();
            body.resolve_contact(&contact);
            i += 1;
        }
    }
}

} // verus!
