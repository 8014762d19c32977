//! Array objects: an ordered collection of identities as an object's backing
//! state, built from host vectors or from a variadic argument list, read back
//! out, and enumerated through the fast-enumeration protocol.
use vstd::prelude::*;

use crate::enumeration::{chunk_len, enumerate_chunk, FastEnumState};
use crate::error::Fatal;
use crate::memory::{word_at, word_ok, GuestMemory};
use crate::registry::ClassId;
use crate::runtime::Runtime;
use crate::store::{
    lemma_keeps_objects_chain, lemma_keeps_objects_widen, lemma_occurrences_prefix, occurrences, rc_step, HostBlob, ObjectRef, ObjectStore,
    RcOp, Slot, NIL,
};
use crate::varargs::{
    arg_readable, arg_word, collect_va_args, list_args, runs_off_memory, terminated_at, VaList,
};

verus! {

/// The count model after one retain of each identity of `s`, in order.
pub open spec fn retain_all(m: Map<ObjectRef, nat>, s: Seq<ObjectRef>) -> Map<ObjectRef, nat>
    decreases s.len(),
{
    if s.len() == 0 {
        m
    } else {
        rc_step(retain_all(m, s.drop_last()), s.last(), RcOp::Retain)
    }
}

/// Every identity of `s` is live in `store`, and its count has room for one
/// more reference per occurrence.
pub open spec fn can_retain_all(store: ObjectStore, s: Seq<ObjectRef>) -> bool {
    forall|j: int|
        0 <= j < s.len() ==> store.is_live(#[trigger] s[j]) && store.count_of(s[j]) + occurrences(
            s,
            s[j],
        ) <= u64::MAX
}

proof fn lemma_retain_all(m: Map<ObjectRef, nat>, s: Seq<ObjectRef>, x: ObjectRef)
    requires
        forall|j: int| 0 <= j < s.len() ==> m.contains_key(#[trigger] s[j]),
    ensures
        retain_all(m, s).contains_key(x) <==> m.contains_key(x),
        m.contains_key(x) ==> retain_all(m, s)[x] == m[x] + occurrences(s, x),
    decreases s.len(),
{
    if s.len() > 0 {
        assert(m.contains_key(s[s.len() - 1]));
        lemma_retain_all(m, s.drop_last(), x);
        lemma_retain_all(m, s.drop_last(), s.last());
    }
}

/// A new array object of `class` whose contents are `objects`, which are
/// taken over as they are: the caller's references become the array's.
pub fn from_vec(env: &mut Runtime, class: ClassId, objects: Vec<ObjectRef>) -> (res: Result<ObjectRef, Fatal>)
    requires
        old(env).wf(),
    ensures
        final(env).wf(),
        final(env).release_log() == old(env).release_log(),
        final(env).classes() == old(env).classes(),
        final(env).pools() == old(env).pools(),
        class >= old(env).classes().len() ==> res == Err::<ObjectRef, Fatal>(Fatal::UnknownClass)
            && final(env).objects() == old(env).objects(),
        class < old(env).classes().len() && old(env).objects().minted() >= crate::store::MAX_OBJECTS
            ==> res == Err::<ObjectRef, Fatal>(Fatal::IdentitiesExhausted) && final(env).objects()
            == old(env).objects(),
        class < old(env).classes().len() && old(env).objects().minted() < crate::store::MAX_OBJECTS
            ==> (res matches Ok(a) && {
            &&& a != NIL
            &&& final(env).objects().minted() == old(env).objects().minted() + 1
            &&& !old(env).objects().is_live(a)
            &&& final(env).objects().entry(a) == Some(
                Slot { class, count: 1, blob: HostBlob::Array(objects) },
            )
            &&& final(env).objects().array_of(a) == objects@
            &&& final(env).objects().same_except(&old(env).objects(), a)
            &&& final(env).objects().counts() == old(env).objects().counts().insert(a, 1)
        }),
{
    env.alloc_object(class, HostBlob::Array(objects))
}

/// A copy of the contents of the array object `array`.
pub fn to_vec(env: &Runtime, array: ObjectRef) -> (res: Result<Vec<ObjectRef>, Fatal>)
    ensures
        !env.objects().is_live(array) ==> res == Err::<Vec<ObjectRef>, Fatal>(Fatal::DeadObject),
        env.objects().is_live(array) && !env.objects().holds_array(array) ==> res == Err::<
            Vec<ObjectRef>,
            Fatal,
        >(Fatal::WrongBlobType),
        env.objects().holds_array(array) ==> (res matches Ok(v) && v@ == env.objects().array_of(
            array,
        )),
{
    let items = env.store().borrow_array(array)?;
    let mut out: Vec<ObjectRef> = Vec::new();
    let mut i: usize = 0;
    while i < items.len()
        invariant
            i <= items@.len(),
            out@ == items@.subrange(0, i as int),
        decreases items@.len() - i,
    {
        out.push(items[i]);
        i = i + 1;
        assert(out@ =~= items@.subrange(0, i as int));
    }
    assert(out@ =~= items@);
    Ok(out)
}

/// The arguments of a call: `first`, then the words of `rest` up to its
/// sentinel; none when `first` is `NIL`, and `rest` is then not read.
fn gather_args(mem: &GuestMemory, first: ObjectRef, rest: &mut VaList) -> (res: Result<Vec<ObjectRef>, Fatal>)
    ensures
        first == NIL ==> *final(rest) == *old(rest) && (res matches Ok(v) && v@.len() == 0),
        first != NIL && (exists|k: int| #[trigger] runs_off_memory(mem@, old(rest).next_addr as int, k))
            ==> res == Err::<Vec<ObjectRef>, Fatal>(Fatal::BadAddress),
        res is Err ==> res == Err::<Vec<ObjectRef>, Fatal>(Fatal::BadAddress),
        res matches Ok(v) ==> forall|j: int| 0 <= j < v@.len() ==> #[trigger] v@[j] != NIL,
        first != NIL ==> (res matches Ok(v) ==> {
            &&& v@ == seq![first] + list_args(mem@, old(rest).next_addr as int, v@.len() - 1)
            &&& terminated_at(mem@, old(rest).next_addr as int, v@.len() - 1)
            &&& final(rest).next_addr == old(rest).next_addr + 4 * v@.len()
            &&& forall|n: int| #[trigger]
                terminated_at(mem@, old(rest).next_addr as int, n) ==> n == v@.len() - 1
        }),
        first != NIL && (exists|n: int| #[trigger] terminated_at(mem@, old(rest).next_addr as int, n))
            ==> res is Ok,
{
    let mut args: Vec<ObjectRef> = Vec::new();
    if first == NIL {
        return Ok(args);
    }
    let ghost start = rest.next_addr as int;
    let tail = collect_va_args(mem, rest)?;
    proof {
        assert forall|n: int| #[trigger] terminated_at(mem@, start, n) implies n == tail@.len() by {
            if n < tail@.len() {
                assert(tail@[n] == arg_word(mem@, start, n));
            } else if n > tail@.len() {
                assert(arg_word(mem@, start, tail@.len() as int) != NIL);
            }
        }
        if exists|k: int| #[trigger] runs_off_memory(mem@, start, k) {
            let k = choose|k: int| #[trigger] runs_off_memory(mem@, start, k);
            if k < tail@.len() {
                assert(tail@[k] == arg_word(mem@, start, k));
            } else if k > tail@.len() {
                assert(arg_word(mem@, start, tail@.len() as int) != NIL);
            }
        }
        assert forall|i: int| 0 <= i <= tail@.len() implies #[trigger] arg_readable(
            mem@.len(),
            start + 4 * i,
        ) by {
            if i < tail@.len() {
                assert(tail@[i] == arg_word(mem@, start, i));
            }
        }
        assert forall|i: int| 0 <= i < tail@.len() implies #[trigger] arg_word(mem@, start, i)
            != NIL by {
            assert(tail@[i] == arg_word(mem@, start, i));
        }
        assert(terminated_at(mem@, start, tail@.len() as int));
    }
    args.push(first);
    let mut j: usize = 0;
    while j < tail.len()
        invariant
            j <= tail@.len(),
            args@ == seq![first] + tail@.subrange(0, j as int),
        decreases tail@.len() - j,
    {
        args.push(tail[j]);
        j = j + 1;
        assert(args@ =~= seq![first] + tail@.subrange(0, j as int));
    }
    assert(args@ =~= seq![first] + tail@);
    assert(tail@ =~= list_args(mem@, start, tail@.len() as int));
    assert forall|j: int| 0 <= j < args@.len() implies #[trigger] args@[j] != NIL by {
        if j > 0 {
            assert(args@[j] == tail@[j - 1]);
        }
    }
    Ok(args)
}

/// Retains each identity of `args` once, in order.
fn retain_each(env: &mut Runtime, args: &Vec<ObjectRef>) -> (res: Result<(), Fatal>)
    requires
        old(env).wf(),
        forall|j: int| 0 <= j < args@.len() ==> #[trigger] args@[j] != NIL,
    ensures
        final(env).wf(),
        final(env).release_log() == old(env).release_log(),
        final(env).classes() == old(env).classes(),
        final(env).pools() == old(env).pools(),
        final(env).objects().keeps_objects(&old(env).objects(), NIL),
        can_retain_all(old(env).objects(), args@) ==> res is Ok,
        res is Ok ==> final(env).objects().counts() == retain_all(old(env).objects().counts(), args@),
{
    let ghost pre = env.objects();
    let ghost owed = can_retain_all(pre, args@);
    let mut i: usize = 0;
    while i < args.len()
        invariant
            env.wf(),
            i <= args@.len(),
            pre == old(env).objects(),
            owed == can_retain_all(pre, args@),
            forall|j: int| 0 <= j < args@.len() ==> #[trigger] args@[j] != NIL,
            env.classes() == old(env).classes(),
            env.pools() == old(env).pools(),
            env.release_log() == old(env).release_log(),
            env.objects().keeps_objects(&pre, NIL),
            env.objects().counts() == retain_all(pre.counts(), args@.subrange(0, i as int)),
        decreases args@.len() - i,
    {
        proof {
            if owed {
                let x = args@[i as int];
                assert(pre.is_live(x));
                assert forall|j: int| 0 <= j < i implies pre.counts().contains_key(
                    #[trigger] args@.subrange(0, i as int)[j],
                ) by {
                    assert(pre.is_live(args@[j]));
                }
                lemma_retain_all(pre.counts(), args@.subrange(0, i as int), x);
                lemma_occurrences_prefix(args@, i + 1, x);
                assert(args@.subrange(0, i + 1).drop_last() =~= args@.subrange(0, i as int));
                assert(env.objects().is_live(x));
                assert(env.objects().counts()[x] == env.objects().count_of(x));
                assert(pre.counts()[x] == pre.count_of(x));
            }
        }
        let ghost before = env.objects();
        let r = env.retain(args[i]);
        if let Err(e) = r {
            assert(env.objects().keeps_objects(&pre, NIL)) by {
                assert forall|x: ObjectRef| #[trigger] pre.is_live(x) implies env.objects().is_live(x) by {
                    assert(before.is_live(x));
                }
            }
            return Err(e);
        }
        assert(args@.subrange(0, i + 1).drop_last() =~= args@.subrange(0, i as int));
        assert(args@.subrange(0, i + 1).last() == args@[i as int]);
        assert(env.objects().keeps_objects(&pre, NIL)) by {
            assert forall|x: ObjectRef| #[trigger] pre.is_live(x) implies env.objects().is_live(x) by {
                assert(before.is_live(x));
            }
        }
        i = i + 1;
    }
    assert(args@.subrange(0, args@.len() as int) =~= args@);
    Ok(())
}

/// Fills the array object `array` from a call's variadic arguments: `first`,
/// then the words of `rest` up to the `NIL` that ends the list. Each argument
/// is retained on the array's behalf; the array's previous contents are handed
/// back to the caller, who owns their references. A `NIL` `first` is an empty
/// list, and `rest` is then not read. The call succeeds whenever the array is
/// live and backed by an array, the list is terminated within readable
/// memory, and every argument is live with room in its count for each of its
/// occurrences.
pub fn from_va_args(
    env: &mut Runtime,
    mem: &GuestMemory,
    array: ObjectRef,
    first: ObjectRef,
    rest: &mut VaList,
) -> (res: Result<Vec<ObjectRef>, Fatal>)
    requires
        old(env).wf(),
    ensures
        final(env).wf(),
        final(env).release_log() == old(env).release_log(),
        final(env).classes() == old(env).classes(),
        final(env).pools() == old(env).pools(),
        final(env).objects().keeps_objects(&old(env).objects(), array),
        first == NIL ==> *final(rest) == *old(rest),
        !old(env).objects().is_live(array) ==> res == Err::<Vec<ObjectRef>, Fatal>(
            Fatal::DeadObject,
        ) && final(env).objects() == old(env).objects(),
        old(env).objects().is_live(array) && !old(env).objects().holds_array(array) ==> res
            == Err::<Vec<ObjectRef>, Fatal>(Fatal::WrongBlobType) && final(env).objects() == old(
            env,
        ).objects(),
        old(env).objects().holds_array(array) && first != NIL && (exists|k: int|
            #[trigger] runs_off_memory(mem@, old(rest).next_addr as int, k)) ==> res == Err::<
            Vec<ObjectRef>,
            Fatal,
        >(Fatal::BadAddress) && final(env).objects() == old(env).objects(),
        old(env).objects().holds_array(array) && (first == NIL || exists|n: int|
            #[trigger] terminated_at(mem@, old(rest).next_addr as int, n) && can_retain_all(
                old(env).objects(),
                seq![first] + list_args(mem@, old(rest).next_addr as int, n),
            )) ==> res is Ok,
        res matches Ok(prev) ==> {
            let a = final(env).objects().array_of(array);
            &&& old(env).objects().holds_array(array)
            &&& prev@ == old(env).objects().array_of(array)
            &&& final(env).objects().holds_array(array)
            &&& first == NIL ==> a.len() == 0
            &&& first != NIL ==> {
                &&& a == seq![first] + list_args(mem@, old(rest).next_addr as int, a.len() - 1)
                &&& terminated_at(mem@, old(rest).next_addr as int, a.len() - 1)
                &&& final(rest).next_addr == old(rest).next_addr + 4 * a.len()
            }
            &&& forall|i: int| 0 <= i < a.len() ==> #[trigger] a[i] != NIL
            &&& final(env).objects().counts() == retain_all(old(env).objects().counts(), a)
        },
{
    if !env.store().is_alive(array) {
        return Err(Fatal::DeadObject);
    }
    if !env.store().is_array(array) {
        return Err(Fatal::WrongBlobType);
    }
    let ghost start = rest.next_addr as int;
    let args = gather_args(mem, first, rest)?;
    proof {
        if first != NIL && exists|n: int|
            #[trigger] terminated_at(mem@, start, n) && can_retain_all(
                old(env).objects(),
                seq![first] + list_args(mem@, start, n),
            ) {
            let n = choose|n: int|
                #[trigger] terminated_at(mem@, start, n) && can_retain_all(
                    old(env).objects(),
                    seq![first] + list_args(mem@, start, n),
                );
            assert(n == args@.len() - 1);
            assert(can_retain_all(old(env).objects(), args@));
        }
        if first == NIL {
            assert(can_retain_all(old(env).objects(), args@));
        }
    }
    let ghost pre = env.objects();
    let r = retain_each(env, &args);
    if let Err(e) = r {
        proof {
            lemma_keeps_objects_widen(pre, env.objects(), array);
        }
        return Err(e);
    }
    let ghost before = env.objects();
    proof {
        lemma_keeps_objects_widen(pre, before, array);
        assert(before.is_live(array));
    }
    let res = env.replace_array(array, args);
    proof {
        lemma_keeps_objects_chain(pre, before, env.objects(), array);
    }
    res
}

/// The fast-enumeration handler of an array object: one call of the protocol
/// over the array's contents, with the array's own identity as the stable
/// token. A cursor past the end of the contents means the guest corrupted the
/// record.
pub fn count_by_enumerating(
    env: &Runtime,
    array: ObjectRef,
    state: &mut FastEnumState,
    buf: &mut Vec<ObjectRef>,
    capacity: u32,
    buf_ptr: u32,
) -> (res: Result<u32, Fatal>)
    requires
        capacity <= old(buf)@.len(),
    ensures
        final(buf)@.len() == old(buf)@.len(),
        res is Err ==> *final(state) == *old(state) && final(buf)@ == old(buf)@,
        !env.objects().is_live(array) ==> res == Err::<u32, Fatal>(Fatal::DeadObject),
        env.objects().is_live(array) && !env.objects().holds_array(array) ==> res == Err::<
            u32,
            Fatal,
        >(Fatal::WrongBlobType),
        env.objects().holds_array(array) && env.objects().array_of(array).len() == 0 ==> res
            == Ok::<u32, Fatal>(0) && *final(state) == *old(state) && final(buf)@ == old(buf)@,
        env.objects().holds_array(array) && env.objects().array_of(array).len() > 0 && old(
            state,
        ).state > env.objects().array_of(array).len() ==> res == Err::<u32, Fatal>(
            Fatal::CorruptEnumerationState,
        ),
        env.objects().holds_array(array) && old(state).state <= env.objects().array_of(array).len()
            && env.objects().array_of(array).len() > u32::MAX ==> res == Err::<u32, Fatal>(
            Fatal::CountOverflow,
        ),
        env.objects().holds_array(array) && old(state).state <= env.objects().array_of(array).len()
            && env.objects().array_of(array).len() <= u32::MAX ==> {
            let items = env.objects().array_of(array);
            &&& items.len() > 0 ==> (res matches Ok(n) && {
                &&& n == chunk_len(items.len(), capacity as nat, old(state).state as nat)
                &&& final(state).state == old(state).state + n
                &&& forall|i: int|
                    0 <= i < n ==> #[trigger] final(buf)@[i] == items[old(state).state + i]
                &&& forall|i: int|
                    n <= i < old(buf)@.len() ==> #[trigger] final(buf)@[i] == old(buf)@[i]
                &&& old(state).state == 0 ==> final(state).items_ptr == buf_ptr
                    && final(state).mutations_ptr == array
                &&& old(state).state != 0 ==> final(state).items_ptr == old(state).items_ptr
                    && final(state).mutations_ptr == old(state).mutations_ptr
            })
        },
{
    let items = env.store().borrow_array(array)?;
    if items.len() == 0 {
        return Ok(0);
    }
    if state.state as usize > items.len() {
        return Err(Fatal::CorruptEnumerationState);
    }
    if items.len() > u32::MAX as usize {
        return Err(Fatal::CountOverflow);
    }
    Ok(enumerate_chunk(items, state, buf, capacity, buf_ptr, array))
}

/// Size in bytes of the part of a guest fast-enumeration record that the
/// runtime reads and writes: the cursor, the chunk pointer and the token.
pub const ENUM_RECORD_BYTES: u32 = 12;

/// The record at `state_addr` is aligned and lies wholly in memory (and in the
/// 32-bit address space).
pub open spec fn record_ok(mem_len: nat, state_addr: int) -> bool {
    state_addr % 4 == 0 && state_addr + ENUM_RECORD_BYTES <= mem_len && state_addr
        + ENUM_RECORD_BYTES <= u32::MAX
}

/// A chunk of `n` words at `buf_addr` is aligned, lies wholly in memory (and in
/// the 32-bit address space) and, when not empty, does not overlap the record.
pub open spec fn chunk_ok(mem_len: nat, state_addr: int, buf_addr: int, n: nat) -> bool {
    &&& buf_addr % 4 == 0
    &&& buf_addr + 4 * n <= u32::MAX
    &&& buf_addr + 4 * n <= mem_len
    &&& n > 0 ==> (state_addr + ENUM_RECORD_BYTES <= buf_addr || buf_addr + 4 * n <= state_addr)
}

/// Writes `items[from..from + n]` as consecutive words starting at `addr`.
fn write_words(mem: &mut GuestMemory, addr: u32, items: &Vec<ObjectRef>, from: usize, n: u32)
    requires
        from + n <= items@.len(),
        addr % 4 == 0,
        addr + 4 * n <= old(mem)@.len(),
        addr + 4 * n <= u32::MAX,
    ensures
        final(mem)@.len() == old(mem)@.len(),
        forall|j: int| 0 <= j < n ==> #[trigger] word_at(final(mem)@, addr + 4 * j) == items@[from + j],
        forall|b: int|
            0 <= b < old(mem)@.len() && !(addr <= b < addr + 4 * n) ==> #[trigger] final(mem)@[b]
                == old(mem)@[b],
{
    let ghost mem0 = mem@;
    let len = items.len();
    let mut i: u32 = 0;
    while i < n
        invariant
            i <= n,
            len == items@.len(),
            from + n <= items@.len(),
            addr % 4 == 0,
            addr + 4 * n <= mem0.len(),
            addr + 4 * n <= u32::MAX,
            mem@.len() == mem0.len(),
            forall|j: int| 0 <= j < i ==> #[trigger] word_at(mem@, addr + 4 * j) == items@[from + j],
            forall|b: int|
                0 <= b < mem0.len() && !(addr <= b < addr + 4 * i) ==> #[trigger] mem@[b] == mem0[b],
        decreases n - i,
    {
        let ghost before = mem@;
        let _ = mem.write_u32(addr + 4 * i, items[from + i as usize]);
        assert(word_ok(before.len(), addr + 4 * i));
        assert forall|j: int| 0 <= j < i + 1 implies #[trigger] word_at(mem@, addr + 4 * j) == items@[from
            + j] by {
            if j < i {
                assert(word_at(before, addr + 4 * j) == items@[from + j]);
                assert(mem@[addr + 4 * j] == before[addr + 4 * j]);
                assert(mem@[addr + 4 * j + 1] == before[addr + 4 * j + 1]);
                assert(mem@[addr + 4 * j + 2] == before[addr + 4 * j + 2]);
                assert(mem@[addr + 4 * j + 3] == before[addr + 4 * j + 3]);
            }
        }
        i = i + 1;
    }
}

/// The fast-enumeration handler of an array object over a record and a buffer
/// that live in guest memory. The record's first word is the cursor; on the
/// first call its second and third words receive the buffer's address and the
/// array's identity, the token that stays the same across the enumeration.
/// Up to `capacity` elements from the cursor on are written as words at
/// `buf_addr`, the cursor advances past them, and their number is returned. An
/// empty array returns 0 without touching memory. An unreadable record, a
/// chunk that does not fit in memory, or a chunk that would overlap the
/// record is a bad address; nothing is written then.
pub fn count_by_enumerating_in_guest(
    env: &Runtime,
    mem: &mut GuestMemory,
    array: ObjectRef,
    state_addr: u32,
    buf_addr: u32,
    capacity: u32,
) -> (res: Result<u32, Fatal>)
    ensures
        final(mem)@.len() == old(mem)@.len(),
        res is Err ==> final(mem)@ == old(mem)@,
        !env.objects().is_live(array) ==> res == Err::<u32, Fatal>(Fatal::DeadObject),
        env.objects().is_live(array) && !env.objects().holds_array(array) ==> res == Err::<
            u32,
            Fatal,
        >(Fatal::WrongBlobType),
        env.objects().holds_array(array) && env.objects().array_of(array).len() == 0 ==> res
            == Ok::<u32, Fatal>(0) && final(mem)@ == old(mem)@,
        env.objects().holds_array(array) && env.objects().array_of(array).len() > u32::MAX ==> res
            == Err::<u32, Fatal>(Fatal::CountOverflow),
        ({
            let len = env.objects().array_of(array).len();
            let cur = word_at(old(mem)@, state_addr as int);
            let n = chunk_len(len, capacity as nat, cur as nat);
            env.objects().holds_array(array) && 0 < len <= u32::MAX ==> {
                &&& !record_ok(old(mem)@.len(), state_addr as int) ==> res == Err::<u32, Fatal>(
                    Fatal::BadAddress,
                )
                &&& record_ok(old(mem)@.len(), state_addr as int) && cur > len ==> res == Err::<
                    u32,
                    Fatal,
                >(Fatal::CorruptEnumerationState)
                &&& record_ok(old(mem)@.len(), state_addr as int) && cur <= len && !chunk_ok(
                    old(mem)@.len(),
                    state_addr as int,
                    buf_addr as int,
                    n,
                ) ==> res == Err::<u32, Fatal>(Fatal::BadAddress)
                &&& record_ok(old(mem)@.len(), state_addr as int) && cur <= len && chunk_ok(
                    old(mem)@.len(),
                    state_addr as int,
                    buf_addr as int,
                    n,
                ) ==> res == Ok::<u32, Fatal>(n as u32)
            }
        }),
        res matches Ok(n) ==> env.objects().holds_array(array) && (env.objects().array_of(
            array,
        ).len() > 0 ==> {
            let items = env.objects().array_of(array);
            let cur = word_at(old(mem)@, state_addr as int);
            &&& word_ok(old(mem)@.len(), state_addr as int)
            &&& 0 <= cur <= items.len()
            &&& n == chunk_len(items.len(), capacity as nat, cur as nat)
            &&& forall|j: int|
                0 <= j < n ==> #[trigger] word_at(final(mem)@, buf_addr + 4 * j) == items[cur + j]
            &&& word_at(final(mem)@, state_addr as int) == cur + n
            &&& cur == 0 ==> word_at(final(mem)@, state_addr + 4) == buf_addr && word_at(
                final(mem)@,
                state_addr + 8,
            ) == array
            &&& cur != 0 ==> word_at(final(mem)@, state_addr + 4) == word_at(
                old(mem)@,
                state_addr + 4,
            ) && word_at(final(mem)@, state_addr + 8) == word_at(old(mem)@, state_addr + 8)
            &&& forall|b: int|
                0 <= b < old(mem)@.len() && !(buf_addr <= b < buf_addr + 4 * n) && !(state_addr <= b
                    < state_addr + ENUM_RECORD_BYTES) ==> #[trigger] final(mem)@[b] == old(mem)@[b]
        }),
{
    let items = env.store().borrow_array(array)?;
    if items.len() == 0 {
        return Ok(0);
    }
    if items.len() > u32::MAX as usize {
        return Err(Fatal::CountOverflow);
    }
    if state_addr > u32::MAX - ENUM_RECORD_BYTES || (state_addr + ENUM_RECORD_BYTES) as usize
        > mem.len() {
        return Err(Fatal::BadAddress);
    }
    if state_addr % 4 != 0 {
        return Err(Fatal::BadAddress);
    }
    let cur = mem.read_u32(state_addr)?;
    if cur as usize > items.len() {
        return Err(Fatal::CorruptEnumerationState);
    }
    let left = items.len() as u32 - cur;
    let n = if left < capacity {
        left
    } else {
        capacity
    };
    if buf_addr % 4 != 0 || n > (u32::MAX - buf_addr) / 4 || (buf_addr + 4 * n) as usize > mem.len() {
        return Err(Fatal::BadAddress);
    }
    if n > 0 && !(state_addr + ENUM_RECORD_BYTES <= buf_addr || buf_addr + 4 * n <= state_addr) {
        return Err(Fatal::BadAddress);
    }
    let ghost mem0 = mem@;
    write_words(mem, buf_addr, items, cur as usize, n);
    let ghost mem1 = mem@;
    if cur == 0 {
        let _ = mem.write_u32(state_addr + 4, buf_addr);
        let _ = mem.write_u32(state_addr + 8, array);
    }
    let _ = mem.write_u32(state_addr, cur + n);
    proof {
        assert forall|j: int| 0 <= j < n implies #[trigger] word_at(mem@, buf_addr + 4 * j)
            == items@[cur + j] by {
            assert(word_at(mem1, buf_addr + 4 * j) == items@[cur + j]);
            assert(mem@[buf_addr + 4 * j] == mem1[buf_addr + 4 * j]);
            assert(mem@[buf_addr + 4 * j + 1] == mem1[buf_addr + 4 * j + 1]);
            assert(mem@[buf_addr + 4 * j + 2] == mem1[buf_addr + 4 * j + 2]);
            assert(mem@[buf_addr + 4 * j + 3] == mem1[buf_addr + 4 * j + 3]);
        }
    }
    Ok(n)
}

} // verus!
