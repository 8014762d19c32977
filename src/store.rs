//! The host-object store: identities, their backing state and retain counts.
use vstd::prelude::*;

use crate::error::Fatal;

verus! {

/// A guest-visible identity. `NIL` names no object.
pub type ObjectRef = u32;

/// The sentinel identity, "no object".
pub const NIL: ObjectRef = 0;

/// The largest number of identities a store can mint (identities are never reused).
pub const MAX_OBJECTS: usize = 0xffff_fffe;

/// The native state behind one identity.
#[derive(Debug)]
pub enum HostBlob {
    /// An object with no backing state of its own.
    Plain,
    /// An ordered collection of identities, each of them retained by the collection.
    Array(Vec<ObjectRef>),
}

/// The identities that backing state holds.
pub open spec fn blob_items(b: HostBlob) -> Seq<ObjectRef> {
    match b {
        HostBlob::Array(v) => v@,
        HostBlob::Plain => Seq::empty(),
    }
}

/// The record the store keeps for one live identity.
#[derive(Debug)]
pub struct Slot {
    pub class: usize,
    pub count: u64,
    pub blob: HostBlob,
}

/// Maps identities to their backing state and retain counts.
///
/// Identity `r` lives in `slots[r - 1]`; a `None` there means that the object
/// was deallocated. Slots are only ever appended, so an identity is never
/// handed out twice.
pub struct ObjectStore {
    slots: Vec<Option<Slot>>,
}

/// One step of reference counting on an identity.
pub enum RcOp {
    Retain,
    Release,
}

/// The count model after one step on `r`: a release of the last reference removes `r`.
pub open spec fn rc_step(m: Map<ObjectRef, nat>, r: ObjectRef, op: RcOp) -> Map<ObjectRef, nat> {
    match op {
        RcOp::Retain => m.insert(r, m[r] + 1),
        RcOp::Release => if m[r] > 1 {
            m.insert(r, (m[r] - 1) as nat)
        } else {
            m.remove(r)
        },
    }
}

/// How many records of `s` are occupied.
pub open spec fn count_live(s: Seq<Option<Slot>>) -> nat
    decreases s.len(),
{
    if s.len() == 0 {
        0
    } else {
        count_live(s.drop_last()) + if s.last() is Some {
            1nat
        } else {
            0nat
        }
    }
}

proof fn lemma_count_live_update(s: Seq<Option<Slot>>, i: int, v: Option<Slot>)
    requires
        0 <= i < s.len(),
    ensures
        count_live(s.update(i, v)) + (if s[i] is Some {
            1int
        } else {
            0int
        }) == count_live(s) + (if v is Some {
            1int
        } else {
            0int
        }),
        count_live(s) <= s.len(),
    decreases s.len(),
{
    let t = s.update(i, v);
    if i == s.len() - 1 {
        assert(t.drop_last() =~= s.drop_last());
        lemma_count_live_bound(s);
    } else {
        assert(t.drop_last() =~= s.drop_last().update(i, v));
        lemma_count_live_update(s.drop_last(), i, v);
    }
}

proof fn lemma_count_live_bound(s: Seq<Option<Slot>>)
    ensures
        count_live(s) <= s.len(),
    decreases s.len(),
{
    if s.len() > 0 {
        lemma_count_live_bound(s.drop_last());
    }
}

impl ObjectStore {
    /// The number of identities minted so far.
    pub closed spec fn minted(&self) -> nat {
        self.slots@.len()
    }

    /// The record of `r`, if `r` is live.
    pub closed spec fn entry(&self, r: ObjectRef) -> Option<Slot> {
        if r != NIL && r - 1 < self.slots@.len() {
            self.slots@[r - 1]
        } else {
            None
        }
    }

    pub open spec fn is_live(&self, r: ObjectRef) -> bool {
        r != NIL && self.entry(r) is Some
    }

    pub open spec fn count_of(&self, r: ObjectRef) -> nat {
        self.entry(r)->Some_0.count as nat
    }

    pub open spec fn class_spec(&self, r: ObjectRef) -> usize {
        self.entry(r)->Some_0.class
    }

    pub open spec fn blob_of(&self, r: ObjectRef) -> HostBlob {
        self.entry(r)->Some_0.blob
    }

    /// Whether `r` is live and backed by an array.
    pub open spec fn holds_array(&self, r: ObjectRef) -> bool {
        self.is_live(r) && self.blob_of(r) is Array
    }

    /// The elements of the array behind `r`.
    pub open spec fn array_of(&self, r: ObjectRef) -> Seq<ObjectRef> {
        self.blob_of(r)->Array_0@
    }

    /// The retain count of every live identity.
    pub open spec fn counts(&self) -> Map<ObjectRef, nat> {
        Map::new(|r: ObjectRef| self.is_live(r), |r: ObjectRef| self.count_of(r))
    }

    /// Every identity live here was live in `other`, with the same class.
    pub open spec fn shrinks_from(&self, other: &ObjectStore) -> bool {
        forall|x: ObjectRef| #[trigger]
            self.is_live(x) ==> other.is_live(x) && self.class_spec(x) == other.class_spec(x)
    }

    /// The same identities are live in both stores, each with the same class,
    /// and each with the same backing state unless it is `r`.
    pub open spec fn keeps_objects(&self, other: &ObjectStore, r: ObjectRef) -> bool {
        forall|x: ObjectRef|
            #![trigger self.is_live(x)]
            #![trigger other.is_live(x)]
            (self.is_live(x) <==> other.is_live(x)) && (self.is_live(x) ==> self.class_spec(x)
                == other.class_spec(x) && (x != r ==> self.blob_of(x) == other.blob_of(x)))
    }

    /// Every identity live here has the backing state it has in `other`.
    pub open spec fn blobs_kept(&self, other: &ObjectStore) -> bool {
        forall|x: ObjectRef| #[trigger] self.is_live(x) ==> self.blob_of(x) == other.blob_of(x)
    }

    /// Every identity other than `r` has the same record in both stores.
    pub open spec fn same_except(&self, other: &ObjectStore, r: ObjectRef) -> bool {
        forall|x: ObjectRef| x != r ==> #[trigger] self.entry(x) == other.entry(x)
    }

    /// How many identities are live.
    pub closed spec fn live_count(&self) -> nat {
        count_live(self.slots@)
    }

    pub closed spec fn wf(&self) -> bool {
        self.slots@.len() <= MAX_OBJECTS
    }

    pub fn new() -> (s: Self)
        ensures
            s.wf(),
            s.minted() == 0,
            forall|r: ObjectRef| !s.is_live(r),
    {
        ObjectStore { slots: Vec::new() }
    }

    /// Mints a fresh identity for a new object of `class` backed by `blob`,
    /// with a retain count of 1.
    pub fn allocate(&mut self, class: usize, blob: HostBlob) -> (res: Result<ObjectRef, Fatal>)
        requires
            old(self).wf(),
        ensures
            final(self).wf(),
            old(self).minted() >= MAX_OBJECTS <==> res is Err,
            res is Err ==> res == Err::<ObjectRef, Fatal>(Fatal::IdentitiesExhausted)
                && *final(self) == *old(self),
            res matches Ok(r) ==> {
                &&& r != NIL
                &&& r == old(self).minted() + 1
                &&& final(self).minted() == old(self).minted() + 1
                &&& !old(self).is_live(r)
                &&& final(self).entry(r) == Some(Slot { class, count: 1, blob })
                &&& final(self).same_except(old(self), r)
                &&& final(self).live_count() == old(self).live_count() + 1
                &&& final(self).counts() == old(self).counts().insert(r, 1)
            },
    {
        if self.slots.len() >= MAX_OBJECTS {
            return Err(Fatal::IdentitiesExhausted);
        }
        let ghost pre = *self;
        let r = (self.slots.len() + 1) as ObjectRef;
        self.slots.push(Some(Slot { class, count: 1, blob }));
        assert(self.slots@.drop_last() =~= pre.slots@);
        assert(final(self).counts() =~= pre.counts().insert(r, 1));
        Ok(r)
    }

    /// Whether `r` names a live object.
    pub fn is_alive(&self, r: ObjectRef) -> (b: bool)
        ensures
            b == self.is_live(r),
    {
        if r == NIL || (r - 1) as usize >= self.slots.len() {
            false
        } else {
            self.slots[(r - 1) as usize].is_some()
        }
    }

    /// The class that `r` was allocated with.
    pub fn class_of(&self, r: ObjectRef) -> (c: usize)
        requires
            self.is_live(r),
        ensures
            c == self.class_spec(r),
    {
        match &self.slots[(r - 1) as usize] {
            Some(s) => s.class,
            None => 0,
        }
    }

    /// The retain count of `r`.
    pub fn retain_count(&self, r: ObjectRef) -> (n: u64)
        requires
            self.is_live(r),
        ensures
            n == self.count_of(r),
    {
        match &self.slots[(r - 1) as usize] {
            Some(s) => s.count,
            None => 0,
        }
    }

    /// Takes the record of `r` out of the store, leaving the identity dead.
    fn take_slot(&mut self, r: ObjectRef) -> (s: Slot)
        requires
            old(self).is_live(r),
        ensures
            Some(s) == old(self).entry(r),
            !final(self).is_live(r),
            final(self).minted() == old(self).minted(),
            final(self).same_except(old(self), r),
            final(self).live_count() + 1 == old(self).live_count(),
    {
        proof {
            lemma_count_live_update(self.slots@, r - 1, None);
        }
        let mut tmp: Option<Slot> = None;
        self.slots.set_and_swap((r - 1) as usize, &mut tmp);
        match tmp {
            Some(s) => s,
            None => Slot { class: 0, count: 0, blob: HostBlob::Plain },
        }
    }

    /// Puts back a record for a live identity.
    fn put_slot(&mut self, r: ObjectRef, s: Slot)
        requires
            r != NIL,
            r - 1 < old(self).minted(),
            !old(self).is_live(r),
        ensures
            final(self).entry(r) == Some(s),
            final(self).minted() == old(self).minted(),
            final(self).same_except(old(self), r),
            final(self).live_count() == old(self).live_count() + 1,
    {
        proof {
            lemma_count_live_update(self.slots@, r - 1, Some(s));
        }
        self.slots.set((r - 1) as usize, Some(s));
    }

    /// Adds one reference to `r` and hands `r` back. Retaining `NIL` does nothing.
    pub fn retain(&mut self, r: ObjectRef) -> (res: Result<ObjectRef, Fatal>)
        requires
            old(self).wf(),
        ensures
            final(self).wf(),
            final(self).shrinks_from(old(self)),
            final(self).keeps_objects(old(self), NIL),
            final(self).minted() == old(self).minted(),
            r == NIL ==> res == Ok::<ObjectRef, Fatal>(NIL) && *final(self) == *old(self),
            r != NIL && !old(self).is_live(r) ==> res == Err::<ObjectRef, Fatal>(Fatal::DeadObject)
                && *final(self) == *old(self),
            r != NIL && old(self).is_live(r) && old(self).count_of(r) >= u64::MAX ==> res
                == Err::<ObjectRef, Fatal>(Fatal::CountOverflow) && *final(self) == *old(self),
            r != NIL && old(self).is_live(r) && old(self).count_of(r) < u64::MAX ==> {
                &&& res == Ok::<ObjectRef, Fatal>(r)
                &&& final(self).entry(r) == Some(
                    Slot { count: (old(self).count_of(r) + 1) as u64, ..old(self).entry(r)->Some_0 },
                )
                &&& final(self).same_except(old(self), r)
                &&& final(self).live_count() == old(self).live_count()
                &&& final(self).counts() == rc_step(old(self).counts(), r, RcOp::Retain)
            },
    {
        if r == NIL {
            return Ok(NIL);
        }
        if !self.is_alive(r) {
            return Err(Fatal::DeadObject);
        }
        if self.retain_count(r) == u64::MAX {
            return Err(Fatal::CountOverflow);
        }
        let ghost pre = *self;
        let s = self.take_slot(r);
        self.put_slot(r, Slot { count: s.count + 1, ..s });
        assert(final(self).counts() =~= rc_step(pre.counts(), r, RcOp::Retain));
        Ok(r)
    }

    /// Drops one reference to `r`. When the last reference goes, `r` is
    /// deallocated and its record is handed back, so that the caller can tear
    /// down what the backing state holds. Releasing `NIL` does nothing.
    pub fn release(&mut self, r: ObjectRef) -> (res: Result<Option<Slot>, Fatal>)
        requires
            old(self).wf(),
        ensures
            final(self).wf(),
            final(self).shrinks_from(old(self)),
            final(self).blobs_kept(old(self)),
            final(self).minted() == old(self).minted(),
            r == NIL ==> res == Ok::<Option<Slot>, Fatal>(None) && *final(self) == *old(self),
            res matches Ok(Some(_)) ==> final(self).live_count() + 1 == old(self).live_count(),
            res matches Ok(None) ==> final(self).live_count() == old(self).live_count(),
            r != NIL && !old(self).is_live(r) ==> res == Err::<Option<Slot>, Fatal>(
                Fatal::DeadObject,
            ) && *final(self) == *old(self),
            r != NIL && old(self).is_live(r) ==> {
                &&& final(self).same_except(old(self), r)
                &&& final(self).counts() == rc_step(old(self).counts(), r, RcOp::Release)
                &&& old(self).count_of(r) > 1 ==> res == Ok::<Option<Slot>, Fatal>(None)
                    && final(self).entry(r) == Some(
                    Slot { count: (old(self).count_of(r) - 1) as u64, ..old(self).entry(r)->Some_0 },
                )
                &&& old(self).count_of(r) <= 1 ==> res == Ok::<Option<Slot>, Fatal>(
                    old(self).entry(r),
                ) && !final(self).is_live(r)
            },
    {
        if r == NIL {
            return Ok(None);
        }
        if !self.is_alive(r) {
            return Err(Fatal::DeadObject);
        }
        let ghost pre = *self;
        let s = self.take_slot(r);
        if s.count > 1 {
            self.put_slot(r, Slot { count: s.count - 1, ..s });
            assert(final(self).counts() =~= rc_step(pre.counts(), r, RcOp::Release));
            Ok(None)
        } else {
            assert(final(self).counts() =~= rc_step(pre.counts(), r, RcOp::Release));
            Ok(Some(s))
        }
    }

    /// Removes `r` and hands back its record, whatever its retain count.
    pub fn deallocate(&mut self, r: ObjectRef) -> (res: Result<Slot, Fatal>)
        requires
            old(self).wf(),
        ensures
            final(self).wf(),
            final(self).shrinks_from(old(self)),
            final(self).minted() == old(self).minted(),
            !old(self).is_live(r) ==> res == Err::<Slot, Fatal>(Fatal::DeadObject) && *final(self)
                == *old(self),
            old(self).is_live(r) ==> {
                &&& (res matches Ok(s) && Some(s) == old(self).entry(r))
                &&& !final(self).is_live(r)
                &&& final(self).same_except(old(self), r)
            },
    {
        if !self.is_alive(r) {
            return Err(Fatal::DeadObject);
        }
        Ok(self.take_slot(r))
    }

    /// Shared access to the array behind `r`.
    pub fn borrow_array(&self, r: ObjectRef) -> (res: Result<&Vec<ObjectRef>, Fatal>)
        ensures
            !self.is_live(r) ==> res == Err::<&Vec<ObjectRef>, Fatal>(Fatal::DeadObject),
            self.is_live(r) && !self.holds_array(r) ==> res == Err::<&Vec<ObjectRef>, Fatal>(
                Fatal::WrongBlobType,
            ),
            self.holds_array(r) ==> (res matches Ok(v) && v@ == self.array_of(r)),
    {
        if !self.is_alive(r) {
            return Err(Fatal::DeadObject);
        }
        match &self.slots[(r - 1) as usize] {
            Some(Slot { blob: HostBlob::Array(v), .. }) => Ok(v),
            _ => Err(Fatal::WrongBlobType),
        }
    }

    /// Installs `items` as the contents of the array behind `r` and hands back
    /// the contents it had.
    pub fn replace_array(&mut self, r: ObjectRef, items: Vec<ObjectRef>) -> (res: Result<Vec<ObjectRef>, Fatal>)
        requires
            old(self).wf(),
        ensures
            final(self).wf(),
            final(self).shrinks_from(old(self)),
            final(self).keeps_objects(old(self), r),
            final(self).minted() == old(self).minted(),
            !old(self).is_live(r) ==> res == Err::<Vec<ObjectRef>, Fatal>(Fatal::DeadObject)
                && *final(self) == *old(self),
            old(self).is_live(r) && !old(self).holds_array(r) ==> res == Err::<Vec<ObjectRef>, Fatal>(
                Fatal::WrongBlobType,
            ) && *final(self) == *old(self),
            old(self).holds_array(r) ==> {
                &&& (res matches Ok(v) && v@ == old(self).array_of(r))
                &&& final(self).entry(r) == Some(
                    Slot { blob: HostBlob::Array(items), ..old(self).entry(r)->Some_0 },
                )
                &&& final(self).same_except(old(self), r)
                &&& final(self).live_count() == old(self).live_count()
                &&& final(self).counts() == old(self).counts()
            },
    {
        if !self.is_alive(r) {
            return Err(Fatal::DeadObject);
        }
        if !self.is_array(r) {
            return Err(Fatal::WrongBlobType);
        }
        let ghost pre = *self;
        let s = self.take_slot(r);
        let Slot { class, count, blob } = s;
        self.put_slot(r, Slot { class, count, blob: HostBlob::Array(items) });
        assert(final(self).counts() =~= pre.counts());
        match blob {
            HostBlob::Array(v) => Ok(v),
            HostBlob::Plain => Ok(Vec::new()),
        }
    }

    /// Whether `r` is live and backed by an array.
    pub fn is_array(&self, r: ObjectRef) -> (b: bool)
        ensures
            b == self.holds_array(r),
    {
        if !self.is_alive(r) {
            return false;
        }
        match &self.slots[(r - 1) as usize] {
            Some(Slot { blob: HostBlob::Array(_), .. }) => true,
            _ => false,
        }
    }
}

/// Keeping objects across two steps: liveness and classes carry over, and so
/// does every backing state that neither step is allowed to change.
pub proof fn lemma_keeps_objects_chain(a: ObjectStore, b: ObjectStore, c: ObjectStore, r: ObjectRef)
    requires
        b.keeps_objects(&a, NIL),
        c.keeps_objects(&b, r),
    ensures
        c.keeps_objects(&a, r),
        r != NIL && a.is_live(r) ==> c.is_live(r) && c.class_spec(r) == a.class_spec(r),
{
    assert forall|x: ObjectRef| #[trigger] a.is_live(x) implies c.is_live(x) by {
        assert(b.is_live(x));
    }
}

/// A step that keeps every backing state keeps all but any given one.
pub proof fn lemma_keeps_objects_widen(a: ObjectStore, b: ObjectStore, r: ObjectRef)
    requires
        b.keeps_objects(&a, NIL),
    ensures
        b.keeps_objects(&a, r),
        a.is_live(r) ==> b.blob_of(r) == a.blob_of(r),
{
}

/// How many times `x` occurs in `s`.
pub open spec fn occurrences(s: Seq<ObjectRef>, x: ObjectRef) -> nat
    decreases s.len(),
{
    if s.len() == 0 {
        0
    } else {
        occurrences(s.drop_last(), x) + if s.last() == x {
            1nat
        } else {
            0nat
        }
    }
}

pub proof fn lemma_occurrences_prefix(s: Seq<ObjectRef>, i: int, x: ObjectRef)
    requires
        0 <= i <= s.len(),
    ensures
        occurrences(s.subrange(0, i), x) <= occurrences(s, x),
    decreases s.len(),
{
    if i < s.len() {
        assert(s.drop_last().subrange(0, i) =~= s.subrange(0, i));
        lemma_occurrences_prefix(s.drop_last(), i, x);
    } else {
        assert(s.subrange(0, i) =~= s);
    }
}

/// The count model after one release of each identity of `s`, in order.
pub open spec fn release_all(m: Map<ObjectRef, nat>, s: Seq<ObjectRef>) -> Map<ObjectRef, nat>
    decreases s.len(),
{
    if s.len() == 0 {
        m
    } else {
        rc_step(release_all(m, s.drop_last()), s.last(), RcOp::Release)
    }
}

/// Releasing each identity of `s` in turn, where each holds at least one
/// reference per occurrence, lowers each count by its number of occurrences and
/// removes exactly those identities whose references run out.
pub proof fn lemma_release_all(m: Map<ObjectRef, nat>, s: Seq<ObjectRef>, x: ObjectRef)
    requires
        forall|j: int|
            0 <= j < s.len() ==> m.contains_key(#[trigger] s[j]) && m[s[j]] >= occurrences(s, s[j]),
    ensures
        !m.contains_key(x) ==> !release_all(m, s).contains_key(x),
        m.contains_key(x) && m[x] >= 1 ==> (release_all(m, s).contains_key(x) <==> m[x]
            > occurrences(s, x)),
        m.contains_key(x) && m[x] > occurrences(s, x) ==> release_all(m, s)[x] == m[x]
            - occurrences(s, x),
    decreases s.len(),
{
    if s.len() > 0 {
        let t = s.drop_last();
        assert forall|j: int| 0 <= j < t.len() implies m.contains_key(#[trigger] t[j]) && m[t[j]]
            >= occurrences(t, t[j]) by {
            assert(t[j] == s[j]);
        }
        assert(m.contains_key(s[s.len() - 1]));
        lemma_release_all(m, t, x);
        lemma_release_all(m, t, s.last());
    }
}

/// The change one step makes to a retain count.
pub open spec fn op_delta(op: RcOp) -> int {
    match op {
        RcOp::Retain => 1,
        RcOp::Release => -1,
    }
}

/// The net change that `ops` make to a retain count.
pub open spec fn net_change(ops: Seq<RcOp>) -> int
    decreases ops.len(),
{
    if ops.len() == 0 {
        0
    } else {
        op_delta(ops[0]) + net_change(ops.drop_first())
    }
}

/// The count model after applying `ops` to `r`, one after another.
pub open spec fn run_ops(m: Map<ObjectRef, nat>, r: ObjectRef, ops: Seq<RcOp>) -> Map<ObjectRef, nat>
    decreases ops.len(),
{
    if ops.len() == 0 {
        m
    } else {
        run_ops(rc_step(m, r, ops[0]), r, ops.drop_first())
    }
}

/// How many steps of `ops` deallocate `r`, that is, find it live and leave it gone.
pub open spec fn deallocations(m: Map<ObjectRef, nat>, r: ObjectRef, ops: Seq<RcOp>) -> nat
    decreases ops.len(),
{
    if ops.len() == 0 {
        0
    } else {
        let next = rc_step(m, r, ops[0]);
        (if m.contains_key(r) && !next.contains_key(r) {
            1nat
        } else {
            0nat
        }) + deallocations(next, r, ops.drop_first())
    }
}

proof fn lemma_net_change_prefix(ops: Seq<RcOp>, i: int)
    requires
        0 <= i < ops.len(),
    ensures
        net_change(ops.take(i + 1)) == op_delta(ops[0]) + net_change(ops.drop_first().take(i)),
{
    assert(ops.take(i + 1).drop_first() =~= ops.drop_first().take(i));
}

proof fn lemma_rc_run(m: Map<ObjectRef, nat>, r: ObjectRef, ops: Seq<RcOp>, c: nat)
    requires
        m.contains_key(r),
        m[r] == c,
        c >= 1,
        forall|i: int| 0 <= i < ops.len() ==> c + net_change(#[trigger] ops.take(i)) >= 1,
        c + net_change(ops) >= 0,
    ensures
        deallocations(m, r, ops) == (if c + net_change(ops) == 0 {
            1nat
        } else {
            0nat
        }),
        run_ops(m, r, ops).contains_key(r) <==> c + net_change(ops) > 0,
        c + net_change(ops) > 0 ==> run_ops(m, r, ops).contains_key(r) && run_ops(m, r, ops)[r] == c + net_change(ops),
    decreases ops.len(),
{
    if ops.len() > 0 {
        let next = rc_step(m, r, ops[0]);
        let tail = ops.drop_first();
        let c2 = c + op_delta(ops[0]);
        if c2 == 0 {
            if tail.len() > 0 {
                lemma_net_change_prefix(ops, 0);
                assert(ops.take(1).drop_first() =~= Seq::<RcOp>::empty());
                assert(c + net_change(ops.take(1)) >= 1);
            }
            assert(tail.len() == 0);
            assert(!next.contains_key(r));
            assert(run_ops(next, r, tail) == next);
            assert(deallocations(next, r, tail) == 0);
            assert(net_change(tail) == 0);
        } else {
            assert(next.contains_key(r) && next[r] == c2);
            assert forall|i: int| 0 <= i < tail.len() implies c2 + net_change(
                #[trigger] tail.take(i),
            ) >= 1 by {
                lemma_net_change_prefix(ops, i + 1);
                lemma_net_change_prefix(ops, i);
                assert(c + net_change(ops.take(i + 1)) >= 1);
            }
            lemma_rc_run(next, r, tail, c2 as nat);
        }
    }
}

/// Over any sequence of retains and releases on a freshly allocated identity
/// (count 1) that never touches the identity once it is gone, the identity is
/// deallocated exactly once when the releases balance the retains plus the
/// allocation's own reference, and not at all otherwise; while it lives, its
/// count is one plus the retains minus the releases.
pub proof fn lemma_single_deallocation(m: Map<ObjectRef, nat>, r: ObjectRef, ops: Seq<RcOp>)
    requires
        m.contains_key(r),
        m[r] == 1,
        forall|i: int| 0 <= i < ops.len() ==> 1 + net_change(#[trigger] ops.take(i)) >= 1,
        1 + net_change(ops) >= 0,
    ensures
        deallocations(m, r, ops) == (if 1 + net_change(ops) == 0 {
            1nat
        } else {
            0nat
        }),
        run_ops(m, r, ops).contains_key(r) <==> 1 + net_change(ops) > 0,
        1 + net_change(ops) > 0 ==> run_ops(m, r, ops).contains_key(r) && run_ops(m, r, ops)[r] == 1 + net_change(ops),
{
    lemma_rc_run(m, r, ops, 1);
}

} // verus!
