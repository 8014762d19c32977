//! The runtime proper: objects, their classes and the autorelease pools,
//! with message dispatch and the ownership operations that cascade through
//! the identities a collection holds.
use vstd::prelude::*;

use crate::error::Fatal;
use crate::registry::{
    hierarchy_wf, resolve_spec, resolve_super_spec, ClassDescriptor, ClassId, MethodImpl,
    Registry, Selector,
};
use crate::store::{
    blob_items, lemma_occurrences_prefix, lemma_release_all, occurrences, rc_step, release_all, HostBlob,
    ObjectRef, ObjectStore, RcOp, Slot, NIL,
};

verus! {

/// The order in which a pool's registrants are released when it is popped:
/// the reverse of the order in which they were registered.
pub fn drain_order(pool: &Vec<ObjectRef>) -> (order: Vec<ObjectRef>)
    ensures
        order@ == pool@.reverse(),
{
    let mut order: Vec<ObjectRef> = Vec::new();
    let mut i: usize = pool.len();
    while i > 0
        invariant
            i <= pool@.len(),
            order@.len() == pool@.len() - i,
            forall|j: int| 0 <= j < order@.len() ==> order@[j] == pool@[pool@.len() - 1 - j],
        decreases i,
    {
        i = i - 1;
        order.push(pool[i]);
    }
    assert(order@ =~= pool@.reverse());
    order
}

/// Every identity of `s` is live in `store` with no backing state of its own,
/// and holds at least one reference per occurrence in `s`: releasing them in
/// turn finds each live and deallocates nothing but plain objects.
pub open spec fn can_release_all(store: ObjectStore, s: Seq<ObjectRef>) -> bool {
    forall|j: int|
        0 <= j < s.len() ==> store.is_live(#[trigger] s[j]) && store.blob_of(s[j]) is Plain
            && store.count_of(s[j]) >= occurrences(s, s[j])
}

/// Objects, classes and autorelease pools.
pub struct Runtime {
    store: ObjectStore,
    registry: Registry,
    pools: Vec<Vec<ObjectRef>>,
    /// Every identity handed to `release`, in the order of the calls.
    released: Ghost<Seq<ObjectRef>>,
}

impl Runtime {
    /// The object store.
    pub closed spec fn objects(&self) -> ObjectStore {
        self.store
    }

    /// The registered classes.
    pub closed spec fn classes(&self) -> Seq<ClassDescriptor> {
        self.registry@
    }

    /// The active pools, innermost last, each with its registrants in the
    /// order they were registered.
    pub closed spec fn pools(&self) -> Seq<Seq<ObjectRef>> {
        self.pools@.map_values(|p: Vec<ObjectRef>| p@)
    }

    /// The identities handed to `release` so far, in the order of the calls
    /// (including those that `pop_pool` makes).
    pub closed spec fn release_log(&self) -> Seq<ObjectRef> {
        self.released@
    }

    /// The class hierarchy is acyclic and every live object's class is registered.
    pub closed spec fn wf(&self) -> bool {
        &&& self.store.wf()
        &&& hierarchy_wf(self.registry@)
        &&& forall|r: ObjectRef| #[trigger]
            self.store.is_live(r) ==> self.store.class_spec(r) < self.registry@.len()
    }

    /// A runtime over a fixed set of classes, with no objects and no pool.
    pub fn new(registry: Registry) -> (rt: Self)
        requires
            hierarchy_wf(registry@),
        ensures
            rt.wf(),
            rt.classes() == registry@,
            rt.objects().minted() == 0,
            forall|r: ObjectRef| !rt.objects().is_live(r),
            rt.pools() == Seq::<Seq<ObjectRef>>::empty(),
            rt.release_log() == Seq::<ObjectRef>::empty(),
    {
        let rt = Runtime {
            store: ObjectStore::new(),
            registry,
            pools: Vec::new(),
            released: Ghost(Seq::empty()),
        };
        assert(rt.pools() =~= Seq::<Seq<ObjectRef>>::empty());
        rt
    }

    /// Read access to the object store.
    pub fn store(&self) -> (s: &ObjectStore)
        ensures
            *s == self.objects(),
    {
        &self.store
    }

    /// Read access to the class registry.
    pub fn registry(&self) -> (r: &Registry)
        ensures
            r@ == self.classes(),
    {
        &self.registry
    }

    /// Allocates an instance of `class` backed by `blob`, with a retain count of 1.
    pub fn alloc_object(&mut self, class: ClassId, blob: HostBlob) -> (res: Result<ObjectRef, Fatal>)
        requires
            old(self).wf(),
        ensures
            final(self).wf(),
            final(self).release_log() == old(self).release_log(),
            final(self).classes() == old(self).classes(),
            final(self).pools() == old(self).pools(),
            class >= old(self).classes().len() ==> res == Err::<ObjectRef, Fatal>(
                Fatal::UnknownClass,
            ) && final(self).objects() == old(self).objects(),
            class < old(self).classes().len() && old(self).objects().minted() >= crate::store::MAX_OBJECTS
                ==> res == Err::<ObjectRef, Fatal>(Fatal::IdentitiesExhausted) && final(self).objects()
                == old(self).objects(),
            class < old(self).classes().len() && old(self).objects().minted() < crate::store::MAX_OBJECTS
                ==> (res matches Ok(r) && {
                &&& r != NIL
                &&& final(self).objects().minted() == old(self).objects().minted() + 1
                &&& !old(self).objects().is_live(r)
                &&& final(self).objects().entry(r) == Some(Slot { class, count: 1, blob })
                &&& final(self).objects().same_except(&old(self).objects(), r)
                &&& final(self).objects().counts() == old(self).objects().counts().insert(r, 1)
            }),
    {
        if class >= self.registry.len() {
            return Err(Fatal::UnknownClass);
        }
        let res = self.store.allocate(class, blob);
        proof {
            if let Ok(r) = res {
                assert forall|x: ObjectRef| #[trigger]
                    self.store.is_live(x) implies self.store.class_spec(x) < self.registry@.len() by {
                    if x != r {
                        assert(self.store.entry(x) == old(self).store.entry(x));
                        assert(old(self).store.is_live(x));
                    }
                }
            }
        }
        res
    }

    /// Adds one reference to `r` and hands `r` back; `NIL` is left alone.
    pub fn retain(&mut self, r: ObjectRef) -> (res: Result<ObjectRef, Fatal>)
        requires
            old(self).wf(),
        ensures
            final(self).wf(),
            final(self).objects().keeps_objects(&old(self).objects(), NIL),
            final(self).release_log() == old(self).release_log(),
            final(self).classes() == old(self).classes(),
            final(self).pools() == old(self).pools(),
            r == NIL ==> res == Ok::<ObjectRef, Fatal>(NIL) && final(self).objects() == old(
                self,
            ).objects(),
            r != NIL && !old(self).objects().is_live(r) ==> res == Err::<ObjectRef, Fatal>(
                Fatal::DeadObject,
            ) && final(self).objects() == old(self).objects(),
            r != NIL && old(self).objects().is_live(r) && old(self).objects().count_of(r) >= u64::MAX
                ==> res == Err::<ObjectRef, Fatal>(Fatal::CountOverflow) && final(self).objects()
                == old(self).objects(),
            r != NIL && old(self).objects().is_live(r) && old(self).objects().count_of(r) < u64::MAX
                ==> {
                &&& res == Ok::<ObjectRef, Fatal>(r)
                &&& final(self).objects().entry(r) == Some(
                    Slot {
                        count: (old(self).objects().count_of(r) + 1) as u64,
                        ..old(self).objects().entry(r)->Some_0
                    },
                )
                &&& final(self).objects().same_except(&old(self).objects(), r)
                &&& final(self).objects().counts() == rc_step(
                    old(self).objects().counts(),
                    r,
                    RcOp::Retain,
                )
            },
    {
        self.store.retain(r)
    }

    /// Releases, one by one and depth first, the identities that a
    /// deallocated object's backing state held.
    fn teardown(&mut self, blob: HostBlob) -> (res: Result<(), Fatal>)
        requires
            old(self).wf(),
        ensures
            final(self).wf(),
            final(self).classes() == old(self).classes(),
            final(self).pools() == old(self).pools(),
            final(self).release_log() == old(self).release_log(),
            final(self).objects().minted() == old(self).objects().minted(),
            final(self).objects().shrinks_from(&old(self).objects()),
            final(self).objects().blobs_kept(&old(self).objects()),
            blob is Plain ==> res is Ok && final(self).objects() == old(self).objects(),
            blob is Array && can_release_all(old(self).objects(), blob_items(blob)) ==> res is Ok
                && final(self).objects().counts() == release_all(
                old(self).objects().counts(),
                blob_items(blob),
            ),
    {
        let ghost elems: Seq<ObjectRef> = blob_items(blob);
        let ghost owed = can_release_all(old(self).store, elems);
        let ghost m = old(self).store.counts();
        let mut work: Vec<ObjectRef> = Vec::new();
        if let HostBlob::Array(items) = blob {
            let mut j: usize = items.len();
            while j > 0
                invariant
                    j <= items@.len(),
                    items@ == elems,
                    work@.len() == items@.len() - j,
                    forall|k: int|
                        0 <= k < work@.len() ==> #[trigger] work@[k] == items@[items@.len() - 1 - k],
                decreases j,
            {
                j = j - 1;
                work.push(items[j]);
            }
        }
        let ghost mut done: int = 0;
        while work.len() > 0
            invariant
                owed == can_release_all(old(self).store, elems),
                elems == blob_items(blob),
                m == old(self).store.counts(),
                owed ==> {
                    &&& 0 <= done <= elems.len()
                    &&& work@.len() == elems.len() - done
                    &&& forall|k: int|
                        0 <= k < work@.len() ==> #[trigger] work@[k] == elems[elems.len() - 1 - k]
                    &&& self.store.counts() == release_all(m, elems.subrange(0, done))
                },
                self.wf(),
                self.registry@ == old(self).registry@,
                self.pools@ == old(self).pools@,
                self.released@ == old(self).released@,
                self.store.minted() == old(self).store.minted(),
                self.store.shrinks_from(&old(self).store),
                self.store.blobs_kept(&old(self).store),
                blob is Plain ==> work@.len() == 0 && self.store == old(self).store,
            decreases self.store.live_count(), work@.len(),
        {
            assert(owed ==> work@.len() > 0 && work@.last() == elems[done] && self.store.is_live(
                elems[done],
            ) && self.store.blob_of(elems[done]) is Plain && self.store.counts()[elems[done]]
                == self.store.count_of(elems[done])) by {
                if owed {
                    let x = elems[done];
                    let si = elems.subrange(0, done);
                    assert(work@[work@.len() - 1] == x);
                    assert forall|j: int| 0 <= j < si.len() implies m.contains_key(#[trigger] si[j])
                        && m[si[j]] >= occurrences(si, si[j]) by {
                        assert(si[j] == elems[j]);
                        assert(old(self).store.is_live(elems[j]));
                        lemma_occurrences_prefix(elems, done, si[j]);
                    }
                    assert(old(self).store.is_live(x));
                    lemma_occurrences_prefix(elems, done + 1, x);
                    assert(elems.subrange(0, done + 1).drop_last() =~= si);
                    lemma_release_all(m, si, x);
                    assert(self.store.is_live(x));
                    assert(self.store.blob_of(x) is Plain);
                }
            }
            let ghost last = work@.last();
            let x = work.pop().unwrap();
            assert(x == last);
            let ghost before = self.store;
            match self.store.release(x) {
                Err(e) => {
                    return Err(e);
                },
                Ok(None) => {
                    assert(self.store.blobs_kept(&old(self).store)) by {
                        assert forall|y: ObjectRef| #[trigger] self.store.is_live(y) implies self.store.blob_of(
                            y,
                        ) == old(self).store.blob_of(y) by {
                            assert(before.is_live(y));
                        }
                    }
                    assert(self.store.shrinks_from(&old(self).store)) by {
                        assert forall|y: ObjectRef| #[trigger] self.store.is_live(y) implies old(
                            self,
                        ).store.is_live(y) && self.store.class_spec(y) == old(self).store.class_spec(y) by {
                            assert(before.is_live(y));
                        }
                    }
                },
                Ok(Some(slot)) => {
                    assert(self.store.blobs_kept(&old(self).store)) by {
                        assert forall|y: ObjectRef| #[trigger] self.store.is_live(y) implies self.store.blob_of(
                            y,
                        ) == old(self).store.blob_of(y) by {
                            assert(before.is_live(y));
                        }
                    }
                    assert(self.store.shrinks_from(&old(self).store)) by {
                        assert forall|y: ObjectRef| #[trigger] self.store.is_live(y) implies old(
                            self,
                        ).store.is_live(y) && self.store.class_spec(y) == old(self).store.class_spec(y) by {
                            assert(before.is_live(y));
                        }
                    }
                    if let HostBlob::Array(items) = slot.blob {
                        let mut j: usize = items.len();
                        while j > 0
                            invariant
                                j <= items@.len(),
                            decreases j,
                        {
                            j = j - 1;
                            work.push(items[j]);
                        }
                    }
                },
            }
            proof {
                if owed {
                    assert(elems.subrange(0, done + 1).drop_last() =~= elems.subrange(0, done));
                    assert(elems.subrange(0, done + 1).last() == elems[done]);
                    done = done + 1;
                }
            }
        }
        proof {
            if owed {
                assert(elems.subrange(0, elems.len() as int) =~= elems);
            }
        }
        Ok(())
    }

    /// Drops one reference to `r`. When the last one goes, `r` is deallocated
    /// and every identity that its backing state held is released in turn.
    /// Releasing `NIL` does nothing.
    pub fn release(&mut self, r: ObjectRef) -> (res: Result<(), Fatal>)
        requires
            old(self).wf(),
        ensures
            final(self).wf(),
            final(self).classes() == old(self).classes(),
            final(self).pools() == old(self).pools(),
            final(self).release_log() == old(self).release_log().push(r),
            final(self).objects().minted() == old(self).objects().minted(),
            final(self).objects().shrinks_from(&old(self).objects()),
            final(self).objects().blobs_kept(&old(self).objects()),
            r == NIL ==> res is Ok && final(self).objects() == old(self).objects(),
            r != NIL && !old(self).objects().is_live(r) ==> res == Err::<(), Fatal>(
                Fatal::DeadObject,
            ) && final(self).objects() == old(self).objects(),
            r != NIL && old(self).objects().is_live(r) && old(self).objects().count_of(r) > 1 ==> {
                &&& res is Ok
                &&& final(self).objects().entry(r) == Some(
                    Slot {
                        count: (old(self).objects().count_of(r) - 1) as u64,
                        ..old(self).objects().entry(r)->Some_0
                    },
                )
                &&& final(self).objects().same_except(&old(self).objects(), r)
                &&& final(self).objects().counts() == rc_step(
                    old(self).objects().counts(),
                    r,
                    RcOp::Release,
                )
            },
            r != NIL && old(self).objects().is_live(r) && old(self).objects().count_of(r) <= 1 ==> {
                &&& !final(self).objects().is_live(r)
                &&& old(self).objects().blob_of(r) is Plain ==> {
                    &&& res is Ok
                    &&& final(self).objects().same_except(&old(self).objects(), r)
                    &&& final(self).objects().counts() == rc_step(
                        old(self).objects().counts(),
                        r,
                        RcOp::Release,
                    )
                }
            },
            ({
                let items = blob_items(old(self).objects().blob_of(r));
                r != NIL && old(self).objects().is_live(r) && old(self).objects().count_of(r) <= 1
                    && old(self).objects().blob_of(r) is Array && (forall|j: int|
                    0 <= j < items.len() ==> #[trigger] items[j] != r) && can_release_all(
                    old(self).objects(),
                    items,
                ) ==> res is Ok && final(self).objects().counts() == release_all(
                    old(self).objects().counts().remove(r),
                    items,
                )
            }),
    {
        self.released = Ghost(self.released@.push(r));
        match self.store.release(r) {
            Err(e) => Err(e),
            Ok(None) => Ok(()),
            Ok(Some(slot)) => {
                proof {
                    let items = blob_items(old(self).store.blob_of(r));
                    assert(slot.blob == old(self).store.blob_of(r));
                    if forall|j: int| 0 <= j < items.len() ==> #[trigger] items[j] != r {
                        assert forall|j: int| 0 <= j < items.len() implies self.store.is_live(
                            #[trigger] items[j],
                        ) == old(self).store.is_live(items[j]) && self.store.blob_of(items[j])
                            == old(self).store.blob_of(items[j]) && self.store.count_of(items[j])
                            == old(self).store.count_of(items[j]) by {
                            assert(self.store.entry(items[j]) == old(self).store.entry(items[j]));
                        }
                    }
                    assert(self.store.counts() =~= old(self).store.counts().remove(r));
                }
                self.teardown(slot.blob)
            },
        }
    }

    /// Opens a new innermost autorelease pool.
    pub fn push_pool(&mut self)
        requires
            old(self).wf(),
        ensures
            final(self).wf(),
            final(self).release_log() == old(self).release_log(),
            final(self).objects() == old(self).objects(),
            final(self).classes() == old(self).classes(),
            final(self).pools() == old(self).pools().push(Seq::<ObjectRef>::empty()),
    {
        self.pools.push(Vec::new());
        assert(self.pools() =~= old(self).pools().push(Seq::<ObjectRef>::empty()));
    }

    /// Registers `r` with the innermost pool, for one release when that pool
    /// is popped, and hands `r` back. `NIL` is left alone.
    pub fn autorelease(&mut self, r: ObjectRef) -> (res: Result<ObjectRef, Fatal>)
        requires
            old(self).wf(),
        ensures
            final(self).wf(),
            final(self).release_log() == old(self).release_log(),
            final(self).objects() == old(self).objects(),
            final(self).classes() == old(self).classes(),
            r == NIL ==> res == Ok::<ObjectRef, Fatal>(NIL) && final(self).pools() == old(
                self,
            ).pools(),
            r != NIL && !old(self).objects().is_live(r) ==> res == Err::<ObjectRef, Fatal>(
                Fatal::DeadObject,
            ) && final(self).pools() == old(self).pools(),
            r != NIL && old(self).objects().is_live(r) && old(self).pools().len() == 0 ==> res
                == Err::<ObjectRef, Fatal>(Fatal::NoActivePool) && final(self).pools() == old(
                self,
            ).pools(),
            r != NIL && old(self).objects().is_live(r) && old(self).pools().len() > 0 ==> {
                &&& res == Ok::<ObjectRef, Fatal>(r)
                &&& final(self).pools() == old(self).pools().drop_last().push(
                    old(self).pools().last().push(r),
                )
            },
    {
        if r == NIL {
            return Ok(NIL);
        }
        if !self.store.is_alive(r) {
            return Err(Fatal::DeadObject);
        }
        if self.pools.len() == 0 {
            return Err(Fatal::NoActivePool);
        }
        let ghost pre = self.pools();
        let mut top = self.pools.pop().unwrap();
        top.push(r);
        self.pools.push(top);
        assert(self.pools() =~= pre.drop_last().push(pre.last().push(r)));
        Ok(r)
    }

    /// Closes the innermost pool and releases its registrants in reverse order
    /// of registration; the order is handed back. Outer pools are untouched.
    pub fn pop_pool(&mut self) -> (res: Result<Vec<ObjectRef>, Fatal>)
        requires
            old(self).wf(),
        ensures
            final(self).wf(),
            final(self).classes() == old(self).classes(),
            final(self).objects().shrinks_from(&old(self).objects()),
            final(self).objects().blobs_kept(&old(self).objects()),
            old(self).pools().len() == 0 ==> res == Err::<Vec<ObjectRef>, Fatal>(
                Fatal::PoolUnderflow,
            ) && final(self).objects() == old(self).objects() && final(self).pools() == old(
                self,
            ).pools(),
            old(self).pools().len() > 0 ==> final(self).pools() == old(self).pools().drop_last(),
            res matches Ok(order) ==> {
                &&& old(self).pools().len() > 0
                &&& order@ == old(self).pools().last().reverse()
                &&& final(self).release_log() == old(self).release_log() + order@
            },
            old(self).pools().len() > 0 && can_release_all(
                old(self).objects(),
                old(self).pools().last().reverse(),
            ) ==> res is Ok && final(self).objects().counts() == release_all(
                old(self).objects().counts(),
                old(self).pools().last().reverse(),
            ),
    {
        if self.pools.len() == 0 {
            return Err(Fatal::PoolUnderflow);
        }
        let ghost pre = self.pools();
        let top = self.pools.pop().unwrap();
        assert(self.pools() =~= pre.drop_last());
        let order = drain_order(&top);
        let ghost owed = can_release_all(old(self).store, order@);
        let ghost m = old(self).store.counts();
        let mut i: usize = 0;
        while i < order.len()
            invariant
                self.wf(),
                pre == old(self).pools(),
                pre.len() > 0,
                self.registry@ == old(self).registry@,
                self.pools() == pre.drop_last(),
                self.store.shrinks_from(&old(self).store),
                self.store.blobs_kept(&old(self).store),
                i <= order@.len(),
                order@ == pre.last().reverse(),
                self.released@ == old(self).released@ + order@.subrange(0, i as int),
                owed == can_release_all(old(self).store, order@),
                m == old(self).store.counts(),
                owed ==> self.store.counts() == release_all(m, order@.subrange(0, i as int)),
            decreases order@.len() - i,
        {
            proof {
                if owed {
                    let x = order@[i as int];
                    let si = order@.subrange(0, i as int);
                    assert forall|j: int| 0 <= j < si.len() implies m.contains_key(#[trigger] si[j])
                        && m[si[j]] >= occurrences(si, si[j]) by {
                        assert(si[j] == order@[j]);
                        assert(old(self).store.is_live(order@[j]));
                        lemma_occurrences_prefix(order@, i as int, si[j]);
                    }
                    assert(old(self).store.is_live(x));
                    lemma_occurrences_prefix(order@, i + 1, x);
                    assert(order@.subrange(0, i + 1).drop_last() =~= si);
                    lemma_release_all(m, si, x);
                    assert(self.store.is_live(x));
                    assert(self.store.blob_of(x) is Plain);
                }
            }
            let ghost before = self.store;
            let r = self.release(order[i]);
            assert(self.store.blobs_kept(&old(self).store)) by {
                assert forall|y: ObjectRef| #[trigger] self.store.is_live(y) implies self.store.blob_of(y)
                    == old(self).store.blob_of(y) by {
                    assert(before.is_live(y));
                }
            }
            assert(self.store.shrinks_from(&old(self).store)) by {
                assert forall|y: ObjectRef| #[trigger] self.store.is_live(y) implies old(
                    self,
                ).store.is_live(y) && self.store.class_spec(y) == old(self).store.class_spec(y) by {
                    assert(before.is_live(y));
                }
            }
            if let Err(e) = r {
                return Err(e);
            }
            assert(order@.subrange(0, i + 1).drop_last() =~= order@.subrange(0, i as int));
            assert(order@.subrange(0, i + 1).last() == order@[i as int]);
            i = i + 1;
            assert(self.released@ =~= old(self).released@ + order@.subrange(0, i as int));
        }
        assert(order@.subrange(0, order@.len() as int) =~= order@);
        Ok(order)
    }

    /// The implementation that a send of `sel` to the instance `receiver`
    /// reaches, starting at the receiver's class. A send to `NIL` reaches
    /// nothing and is no error.
    pub fn send(&self, receiver: ObjectRef, sel: Selector) -> (res: Result<Option<MethodImpl>, Fatal>)
        requires
            self.wf(),
        ensures
            receiver == NIL ==> res == Ok::<Option<MethodImpl>, Fatal>(None),
            receiver != NIL && !self.objects().is_live(receiver) ==> res == Err::<
                Option<MethodImpl>,
                Fatal,
            >(Fatal::DeadObject),
            receiver != NIL && self.objects().is_live(receiver) ==> match resolve_spec(
                self.classes(),
                self.objects().class_spec(receiver) as int,
                sel,
                false,
            ) {
                Some(m) => res == Ok::<Option<MethodImpl>, Fatal>(Some(m)),
                None => res == Err::<Option<MethodImpl>, Fatal>(Fatal::DoesNotUnderstand),
            },
    {
        if receiver == NIL {
            return Ok(None);
        }
        if !self.store.is_alive(receiver) {
            return Err(Fatal::DeadObject);
        }
        let class = self.store.class_of(receiver);
        match self.registry.resolve(class, sel, false) {
            Some(m) => Ok(Some(m)),
            None => Err(Fatal::DoesNotUnderstand),
        }
    }

    /// The implementation that a send of `sel` to `class` itself reaches.
    pub fn send_class(&self, class: ClassId, sel: Selector) -> (res: Result<MethodImpl, Fatal>)
        requires
            self.wf(),
        ensures
            class >= self.classes().len() ==> res == Err::<MethodImpl, Fatal>(Fatal::UnknownClass),
            class < self.classes().len() ==> match resolve_spec(self.classes(), class as int, sel, true) {
                Some(m) => res == Ok::<MethodImpl, Fatal>(m),
                None => res == Err::<MethodImpl, Fatal>(Fatal::DoesNotUnderstand),
            },
    {
        if class >= self.registry.len() {
            return Err(Fatal::UnknownClass);
        }
        match self.registry.resolve(class, sel, true) {
            Some(m) => Ok(m),
            None => Err(Fatal::DoesNotUnderstand),
        }
    }

    /// The implementation that a send to `super` from a method of `current`
    /// reaches: the walk starts above `current`, whatever the receiver's
    /// dynamic class.
    pub fn send_super(&self, current: ClassId, sel: Selector, class_side: bool) -> (res: Result<MethodImpl, Fatal>)
        requires
            self.wf(),
        ensures
            current >= self.classes().len() ==> res == Err::<MethodImpl, Fatal>(
                Fatal::UnknownClass,
            ),
            current < self.classes().len() ==> match resolve_super_spec(
                self.classes(),
                current as int,
                sel,
                class_side,
            ) {
                Some(m) => res == Ok::<MethodImpl, Fatal>(m),
                None => res == Err::<MethodImpl, Fatal>(Fatal::DoesNotUnderstand),
            },
    {
        if current >= self.registry.len() {
            return Err(Fatal::UnknownClass);
        }
        match self.registry.resolve_super(current, sel, class_side) {
            Some(m) => Ok(m),
            None => Err(Fatal::DoesNotUnderstand),
        }
    }

    /// Installs `items` as the contents of the array `r` and hands back the
    /// contents it had; no retain count changes.
    pub fn replace_array(&mut self, r: ObjectRef, items: Vec<ObjectRef>) -> (res: Result<Vec<ObjectRef>, Fatal>)
        requires
            old(self).wf(),
        ensures
            final(self).wf(),
            final(self).objects().keeps_objects(&old(self).objects(), r),
            final(self).release_log() == old(self).release_log(),
            final(self).classes() == old(self).classes(),
            final(self).pools() == old(self).pools(),
            !old(self).objects().is_live(r) ==> res == Err::<Vec<ObjectRef>, Fatal>(
                Fatal::DeadObject,
            ) && final(self).objects() == old(self).objects(),
            old(self).objects().is_live(r) && !old(self).objects().holds_array(r) ==> res == Err::<
                Vec<ObjectRef>,
                Fatal,
            >(Fatal::WrongBlobType) && final(self).objects() == old(self).objects(),
            old(self).objects().holds_array(r) ==> {
                &&& (res matches Ok(v) && v@ == old(self).objects().array_of(r))
                &&& final(self).objects().holds_array(r)
                &&& final(self).objects().array_of(r) == items@
                &&& final(self).objects().count_of(r) == old(self).objects().count_of(r)
                &&& final(self).objects().same_except(&old(self).objects(), r)
                &&& final(self).objects().counts() == old(self).objects().counts()
            },
    {
        self.store.replace_array(r, items)
    }
}

} // verus!
