//! Room distribution and Component Mailbox mutation engine.
use vstd::prelude::*;
use crate::declaration::{ComponentDefinition, Event, RoomDeclaration, SubscriptionDeclaration};
use crate::error::KernelError;
use crate::graph::{GraphState, subscription_before, subscription_rank, subscriptions_sorted};
use crate::identity::{ComponentInstanceId, ComponentRuntimeId, RoomRuntimeId};
use crate::keyed::{Keyed, lemma_push_contains};
use crate::removal::{lemma_filter_sorted, lemma_remove_keys_restrict};
use crate::mailbox::{Room, Subscription};
use crate::search::{first_where, lemma_first_where_at, lemma_first_where_none};

verus! {

/// Where a new Subscription goes: before the first entry it strictly precedes.
pub open spec fn insert_position(s: Seq<Subscription>, x: Subscription) -> int {
    match first_where(s.len() as int, |i: int| subscription_before(x, s[i])) {
        Some(i) => i,
        None => s.len() as int,
    }
}

/// The Subscriptions with `x` inserted after every entry that does not follow it.
pub open spec fn insert_sorted(s: Seq<Subscription>, x: Subscription) -> Seq<Subscription> {
    s.insert(insert_position(s, x), x)
}

/// The Subscriptions with each of `xs` inserted in turn.
pub open spec fn insert_all_sorted(s: Seq<Subscription>, xs: Seq<Subscription>) -> Seq<Subscription>
    decreases xs.len(),
{
    if xs.len() == 0 {
        s
    } else {
        insert_sorted(insert_all_sorted(s, xs.drop_last()), xs.last())
    }
}

/// The living Subscriptions materialized for one Instance from its declarations.
pub open spec fn subscriptions_for(decls: Seq<SubscriptionDeclaration>, instance_id: ComponentInstanceId) -> Seq<Subscription> {
    decls.map_values(|d: SubscriptionDeclaration| Subscription { room: d.room, subscriber: instance_id })
}

/// A concrete Room freshly materialized from a declaration.
pub open spec fn fresh_room(r: Room, decl: RoomDeclaration, runtime: ComponentRuntimeId, ordinal: int, owner: ComponentInstanceId) -> bool {
    &&& r.id == (RoomRuntimeId { runtime, ordinal: ordinal as usize })
    &&& r.address == decl.address
    &&& r.owner == owner
    &&& r.capacity == decl.capacity
    &&& r.queue@.len() == 0
    &&& r.next_sequence == 1
}

/// The last declaration position carrying Room key `a` is `i`.
pub open spec fn last_declared_at(decls: Seq<RoomDeclaration>, a: u64, i: int) -> bool {
    0 <= i < decls.len() && decls[i].address.0 == a && forall|j: int| i < j < decls.len() ==> decls[j].address.0 != a
}

/// `rooms` extends `old` with one fresh Room per declared address, later declarations winning.
pub open spec fn rooms_materialized(old: Map<u64, Room>, rooms: Map<u64, Room>, decls: Seq<RoomDeclaration>, runtime: ComponentRuntimeId, owner: ComponentInstanceId) -> bool {
    &&& forall|a: u64| #[trigger] rooms.contains_key(a) <==> old.contains_key(a) || exists|i: int| 0 <= i < decls.len() && decls[i].address.0 == a
    &&& forall|a: u64| #[trigger] rooms.contains_key(a) && !(exists|i: int| 0 <= i < decls.len() && decls[i].address.0 == a) ==> rooms[a] == old[a]
    &&& forall|a: u64, i: int| #[trigger] last_declared_at(decls, a, i) ==> fresh_room(rooms[a], decls[i], runtime, i, owner)
}

/// Inserting at a position that separates lower from higher ranks keeps the order.
pub proof fn lemma_insert_keeps_sorted(s: Seq<Subscription>, x: Subscription, i: int)
    requires
        subscriptions_sorted(s),
        0 <= i <= s.len(),
        forall|j: int| 0 <= j < i ==> #[trigger] subscription_rank(s[j]) <= subscription_rank(x),
        forall|j: int| i <= j < s.len() ==> subscription_rank(x) < #[trigger] subscription_rank(s[j]),
    ensures
        subscriptions_sorted(s.insert(i, x)),
{
    let t = s.insert(i, x);
    assert forall|a: int, b: int| 0 <= a < b < t.len() implies !subscription_before(#[trigger] t[b], #[trigger] t[a]) by {
        if b < i {
            assert(!subscription_before(s[b], s[a]));
        } else if b == i {
            assert(t[a] == s[a]);
        } else if a < i {
            assert(t[a] == s[a]);
            assert(t[b] == s[b - 1]);
        } else if a == i {
            assert(t[b] == s[b - 1]);
        } else {
            assert(t[a] == s[a - 1]);
            assert(t[b] == s[b - 1]);
            assert(!subscription_before(s[b - 1], s[a - 1]));
        }
    }
}

impl GraphState {
    /// The position at which a new Subscription is inserted.
    pub fn subscription_position(s: &[Subscription], x: Subscription) -> (r: usize)
        ensures
            r == insert_position(s@, x),
            r <= s@.len(),
            forall|j: int| 0 <= j < r ==> !subscription_before(x, #[trigger] s@[j]),
            r < s@.len() ==> subscription_before(x, s@[r as int]),
    {
        let ghost p = |i: int| subscription_before(x, s@[i]);
        let mut i: usize = 0;
        while i < s.len()
            invariant
                p == (|i: int| subscription_before(x, s@[i])),
                i <= s@.len(),
                forall|j: int| 0 <= j < i ==> !#[trigger] p(j),
            decreases s@.len() - i,
        {
            let y = s[i];
            if x.room.0 < y.room.0 || (x.room.0 == y.room.0 && x.subscriber.0 < y.subscriber.0) {
                proof {
                    assert(p(i as int));
                    lemma_first_where_at(s@.len() as int, p, i as int);
                    assert forall|j: int| 0 <= j < i implies !subscription_before(x, #[trigger] s@[j]) by {
                        assert(!p(j));
                    }
                }
                return i;
            }
            assert(!p(i as int));
            i += 1;
        }
        proof {
            lemma_first_where_none(s@.len() as int, p);
        }
        assert forall|j: int| 0 <= j < i implies !subscription_before(x, #[trigger] s@[j]) by {
            assert(!p(j));
        }
        i
    }

    /// Inserts one living Subscription keeping the order by Room and subscriber.
    pub fn insert_subscription(subscriptions: &mut Vec<Subscription>, x: Subscription)
        requires
            subscriptions_sorted(old(subscriptions)@),
        ensures
            subscriptions_sorted(final(subscriptions)@),
            final(subscriptions)@ == insert_sorted(old(subscriptions)@, x),
    {
        let ghost s = subscriptions@;
        let i = Self::subscription_position(subscriptions.as_slice(), x);
        proof {
            assert forall|j: int| 0 <= j < i implies #[trigger] subscription_rank(s[j]) <= subscription_rank(x) by {
                assert(!subscription_before(x, s[j]));
            }
            assert forall|j: int| i <= j < s.len() implies subscription_rank(x) < #[trigger] subscription_rank(s[j]) by {
                assert(subscription_before(x, s[i as int]));
                if i < j {
                    assert(!subscription_before(s[j], s[i as int]));
                }
            }
        }
        proof {
            lemma_insert_keeps_sorted(s, x, i as int);
        }
        subscriptions.insert(i, x);
    }

    /// Materializes declared Rooms and Subscriptions for one Active Runtime.
    pub fn activate_routing(&mut self, instance_id: ComponentInstanceId, runtime_id: ComponentRuntimeId)
        requires
            old(self).wf(),
        ensures
            final(self).wf(),
            final(self).definitions == old(self).definitions,
            final(self).instances == old(self).instances,
            final(self).requirements == old(self).requirements,
            final(self).capabilities == old(self).capabilities,
            final(self).bindings == old(self).bindings,
            final(self).runtimes == old(self).runtimes,
            final(self).effects == old(self).effects,
            final(self).contexts == old(self).contexts,
            final(self).facet_schemas == old(self).facet_schemas,
            final(self).facets == old(self).facets,
            !crate::resolution::plannable(*old(self), instance_id.0) ==> *final(self) == *old(self),
            crate::resolution::plannable(*old(self), instance_id.0) ==> {
                let def = old(self).definitions@[old(self).instances@[instance_id.0].definition_id.0];
                &&& rooms_materialized(old(self).rooms@, final(self).rooms@, def.routing.rooms@, runtime_id, instance_id)
                &&& final(self).subscriptions@ == insert_all_sorted(old(self).subscriptions@, subscriptions_for(def.routing.subscriptions@, instance_id))
            },
    {
        let definition: ComponentDefinition = match self.instances.get(instance_id.0) {
            Some(instance) => match self.definitions.get(instance.definition_id.0) {
                Some(d) => d.clone(),
                None => {
                    return;
                },
            },
            None => {
                return;
            },
        };
        let ghost old_rooms = self.rooms@;
        let ghost decls = definition.routing.rooms@;
        let mut i: usize = 0;
        while i < definition.routing.rooms.len()
            invariant
                self.wf(),
                decls == definition.routing.rooms@,
                i <= decls.len(),
                self.definitions == old(self).definitions,
                self.instances == old(self).instances,
                self.requirements == old(self).requirements,
                self.capabilities == old(self).capabilities,
                self.bindings == old(self).bindings,
                self.runtimes == old(self).runtimes,
                self.effects == old(self).effects,
                self.contexts == old(self).contexts,
                self.facet_schemas == old(self).facet_schemas,
                self.facets == old(self).facets,
                self.subscriptions == old(self).subscriptions,
                old_rooms == old(self).rooms@,
                rooms_materialized(old_rooms, self.rooms@, decls.take(i as int), runtime_id, instance_id),
            decreases decls.len() - i,
        {
            let decl = definition.routing.rooms[i];
            let room = Room::new(RoomRuntimeId::new(runtime_id, i), decl, instance_id);
            let ghost before = self.rooms@;
            let mut rooms = crate::keyed::KeyedVec::new();
            std::mem::swap(&mut rooms, &mut self.rooms);
            rooms.upsert(room);
            self.rooms = rooms;
            proof {
                let t0 = decls.take(i as int);
                let t1 = decls.take(i as int + 1);
                assert(t1[i as int] == decl);
                assert forall|j: int| 0 <= j < i implies t1[j] == #[trigger] t0[j] by {}
                assert forall|a: u64| #[trigger] self.rooms@.contains_key(a) <==> old_rooms.contains_key(a) || exists|j: int| 0 <= j < t1.len() && t1[j].address.0 == a by {
                    if exists|j: int| 0 <= j < t0.len() && t0[j].address.0 == a {
                        let j = choose|j: int| 0 <= j < t0.len() && t0[j].address.0 == a;
                        assert(t1[j].address.0 == a);
                    }
                    if exists|j: int| 0 <= j < t1.len() && t1[j].address.0 == a {
                        let j = choose|j: int| 0 <= j < t1.len() && t1[j].address.0 == a;
                        if j < i {
                            assert(t0[j].address.0 == a);
                        }
                    }
                }
                assert forall|a: u64| #[trigger] self.rooms@.contains_key(a) && !(exists|j: int| 0 <= j < t1.len() && t1[j].address.0 == a)
                    implies self.rooms@[a] == old_rooms[a] by {
                    assert(a != decl.address.0);
                    if exists|j: int| 0 <= j < t0.len() && t0[j].address.0 == a {
                        let j = choose|j: int| 0 <= j < t0.len() && t0[j].address.0 == a;
                        assert(t1[j].address.0 == a);
                    }
                }
                assert forall|a: u64, j: int| #[trigger] last_declared_at(t1, a, j) implies fresh_room(self.rooms@[a], t1[j], runtime_id, j, instance_id) by {
                    if j < i {
                        assert(t1[i as int].address.0 != a);
                        assert(last_declared_at(t0, a, j));
                    } else {
                        assert(j == i);
                    }
                }
            }
            i += 1;
        }
        assert(decls.take(decls.len() as int) =~= decls);
        let ghost subs = subscriptions_for(definition.routing.subscriptions@, instance_id);
        let mut living: Vec<Subscription> = Vec::new();
        std::mem::swap(&mut living, &mut self.subscriptions);
        let mut i: usize = 0;
        while i < definition.routing.subscriptions.len()
            invariant
                subs == subscriptions_for(definition.routing.subscriptions@, instance_id),
                i <= subs.len(),
                subscriptions_sorted(living@),
                living@ == insert_all_sorted(old(self).subscriptions@, subs.take(i as int)),
            decreases subs.len() - i,
        {
            let x = Subscription::new(definition.routing.subscriptions[i].room, instance_id);
            Self::insert_subscription(&mut living, x);
            proof {
                assert(subs[i as int] == x);
                assert(subs.take(i as int + 1).drop_last() =~= subs.take(i as int));
            }
            i += 1;
        }
        self.subscriptions = living;
        assert(subs.take(subs.len() as int) =~= subs);
    }

    /// Addresses of the Rooms owned by one Instance.
    pub fn owned_room_keys(&self, instance_id: ComponentInstanceId) -> (r: Vec<u64>)
        requires
            self.wf(),
        ensures
            forall|a: u64| #[trigger] self.rooms@.contains_key(a) ==> (r@.contains(a) <==> self.rooms@[a].owner == instance_id),
    {
        let mut keys: Vec<u64> = Vec::new();
        let mut i: usize = 0;
        while i < self.rooms.len()
            invariant
                self.wf(),
                i <= self.rooms.seq().len(),
                forall|a: u64| #[trigger] keys@.contains(a) <==> exists|j: int| 0 <= j < i && #[trigger] self.rooms.seq()[j].address.0 == a
                    && self.rooms.seq()[j].owner == instance_id,
            decreases self.rooms.seq().len() - i,
        {
            let room = self.rooms.at(i);
            let ghost before = keys@;
            if room.owner == instance_id {
                keys.push(room.address.0);
                proof {
                    lemma_push_contains(before, room.address.0);
                }
            }
            i += 1;
        }
        proof {
            self.rooms.lemma_view();
            assert forall|a: u64| #[trigger] self.rooms@.contains_key(a) implies (keys@.contains(a) <==> self.rooms@[a].owner == instance_id) by {
                let j = choose|j: int| 0 <= j < self.rooms.seq().len() && self.rooms.seq()[j].spec_key() == a;
                assert(self.rooms.seq()[j] == self.rooms@[a]);
                if keys@.contains(a) {
                    let q = choose|q: int| 0 <= q < self.rooms.seq().len() && #[trigger] self.rooms.seq()[q].address.0 == a
                        && self.rooms.seq()[q].owner == instance_id;
                    assert(self.rooms.seq()[q] == self.rooms@[self.rooms.seq()[q].spec_key()]);
                }
            }
        }
        keys
    }

    /// Releases concrete routing resources owned by one deactivating Runtime.
    pub fn deactivate_routing(&mut self, instance_id: ComponentInstanceId)
        requires
            old(self).wf(),
        ensures
            final(self).wf(),
            final(self).rooms@ == old(self).rooms@.restrict(Set::new(|a: u64| old(self).rooms@[a].owner != instance_id)),
            final(self).subscriptions@ == old(self).subscriptions@.filter(|s: Subscription| s.subscriber != instance_id),
            final(self).definitions == old(self).definitions,
            final(self).instances == old(self).instances,
            final(self).requirements == old(self).requirements,
            final(self).capabilities == old(self).capabilities,
            final(self).bindings == old(self).bindings,
            final(self).runtimes == old(self).runtimes,
            final(self).effects == old(self).effects,
            final(self).contexts == old(self).contexts,
            final(self).facet_schemas == old(self).facet_schemas,
            final(self).facets == old(self).facets,
    {
        let ghost rooms0 = self.rooms@;
        let keys = self.owned_room_keys(instance_id);
        self.rooms.remove_all(&keys);
        proof {
            lemma_remove_keys_restrict(rooms0, keys@, Set::new(|a: u64| rooms0[a].owner != instance_id));
        }
        let ghost s = self.subscriptions@;
        let ghost p = |x: Subscription| x.subscriber != instance_id;
        let mut kept: Vec<Subscription> = Vec::new();
        let mut i: usize = 0;
        while i < self.subscriptions.len()
            invariant
                s == self.subscriptions@,
                p == (|x: Subscription| x.subscriber != instance_id),
                i <= s.len(),
                kept@ == s.take(i as int).filter(p),
            decreases s.len() - i,
        {
            let x = self.subscriptions[i];
            proof {
                assert(s.take(i as int + 1) =~= s.take(i as int).push(x));
                s.take(i as int).lemma_filter_push(x, p);
            }
            if x.subscriber != instance_id {
                kept.push(x);
            }
            i += 1;
        }
        assert(s.take(s.len() as int) =~= s);
        proof {
            lemma_filter_sorted(s, p);
        }
        self.subscriptions = kept;
    }
}

} // verus!
