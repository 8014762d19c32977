//! The fast-enumeration protocol: a collection hands out its elements in
//! chunks bounded by a caller-supplied buffer, across repeated calls that
//! share a small state record.
use vstd::prelude::*;

use crate::store::ObjectRef;

verus! {

/// The state record of one enumeration loop, as the guest holds it.
#[derive(Clone, Copy, Debug, PartialEq, Eq, Structural)]
pub struct FastEnumState {
    /// How many elements have been handed out so far; 0 before the first call.
    pub state: u32,
    /// Where the current chunk was written.
    pub items_ptr: u32,
    /// A token that stays the same across all calls of one enumeration.
    pub mutations_ptr: u32,
}

/// How many elements a call hands out: what is left, at most the capacity.
pub open spec fn chunk_len(n: nat, capacity: nat, cursor: nat) -> nat {
    if n <= cursor {
        0
    } else if n - cursor < capacity {
        (n - cursor) as nat
    } else {
        capacity
    }
}

/// The cursor after `i` calls over `n` elements with the given capacity.
pub open spec fn cursor_after(n: nat, capacity: nat, i: nat) -> nat
    decreases i,
{
    if i == 0 {
        0
    } else {
        let c = cursor_after(n, capacity, (i - 1) as nat);
        c + chunk_len(n, capacity, c)
    }
}

/// How many calls hand out at least one element: `n / capacity`, rounded up.
pub open spec fn rounds(n: nat, capacity: nat) -> nat
    recommends
        capacity > 0,
{
    ((n + capacity - 1) / capacity as int) as nat
}

/// One call of the protocol over `items`: copies the next chunk (at most
/// `capacity` elements, starting at the cursor) to the front of `buf`,
/// advances the cursor and returns how many were copied. The first call
/// also records where the chunk goes and the stable token `guard`. An empty
/// collection returns 0 without touching the record; an exhausted one returns
/// 0 without writing to the buffer.
pub fn enumerate_chunk(
    items: &Vec<ObjectRef>,
    state: &mut FastEnumState,
    buf: &mut Vec<ObjectRef>,
    capacity: u32,
    buf_ptr: u32,
    guard: u32,
) -> (n: u32)
    requires
        old(state).state <= items@.len() <= u32::MAX,
        capacity <= old(buf)@.len(),
    ensures
        final(buf)@.len() == old(buf)@.len(),
        items@.len() == 0 ==> n == 0 && *final(state) == *old(state) && final(buf)@ == old(buf)@,
        items@.len() > 0 ==> {
            &&& n == chunk_len(items@.len(), capacity as nat, old(state).state as nat)
            &&& final(state).state == old(state).state + n
            &&& forall|i: int|
                0 <= i < n ==> #[trigger] final(buf)@[i] == items@[old(state).state + i]
            &&& forall|i: int| n <= i < old(buf)@.len() ==> #[trigger] final(buf)@[i] == old(buf)@[i]
            &&& old(state).state == 0 ==> final(state).items_ptr == buf_ptr
                && final(state).mutations_ptr == guard
            &&& old(state).state != 0 ==> final(state).items_ptr == old(state).items_ptr
                && final(state).mutations_ptr == old(state).mutations_ptr
        },
{
    if items.len() == 0 {
        return 0;
    }
    let cur = state.state;
    let left = items.len() as u32 - cur;
    let this_round = if left < capacity {
        left
    } else {
        capacity
    };
    if cur == 0 {
        *state = FastEnumState { state: 0, items_ptr: buf_ptr, mutations_ptr: guard };
    }
    state.state = cur + this_round;
    let ghost before = buf@;
    let mut i: u32 = 0;
    while i < this_round
        invariant
            i <= this_round,
            items@.len() <= u32::MAX,
            cur + this_round <= items@.len(),
            this_round <= capacity <= buf@.len(),
            buf@.len() == before.len(),
            forall|j: int| 0 <= j < i ==> #[trigger] buf@[j] == items@[cur + j],
            forall|j: int| i <= j < buf@.len() ==> #[trigger] buf@[j] == before[j],
        decreases this_round - i,
    {
        buf.set(i as usize, items[(cur + i) as usize]);
        i = i + 1;
    }
    this_round
}

proof fn lemma_full_rounds(n: nat, k: nat, i: nat)
    requires
        k > 0,
        i * k <= n,
    ensures
        cursor_after(n, k, i) == i * k,
    decreases i,
{
    if i > 0 {
        let j = (i - 1) as nat;
        assert(j * k + k == i * k) by (nonlinear_arith)
            requires
                j == i - 1,
        ;
        lemma_full_rounds(n, k, j);
        let c = cursor_after(n, k, j);
        assert(c == j * k);
        assert(n - c >= k);
        assert(chunk_len(n, k, c) == k);
        assert(cursor_after(n, k, i) == c + chunk_len(n, k, c));
    } else {
        assert(i * k == 0) by (nonlinear_arith)
            requires
                i == 0,
        ;
    }
}

/// Enumerating `n` elements with a buffer of capacity `k > 0` takes exactly
/// `rounds(n, k)` calls that hand out elements, each of them `k` elements but
/// the last, which may hand out fewer; the call after them finds the cursor
/// at `n` and hands out nothing. With no elements the first call hands out
/// nothing.
pub proof fn lemma_enumeration_rounds(n: nat, k: nat)
    requires
        k > 0,
    ensures
        forall|i: nat|
            i < rounds(n, k) ==> {
                &&& #[trigger] cursor_after(n, k, i) == i * k
                &&& 0 < chunk_len(n, k, cursor_after(n, k, i)) <= k
                &&& i + 1 < rounds(n, k) ==> chunk_len(n, k, cursor_after(n, k, i)) == k
            },
        cursor_after(n, k, rounds(n, k)) == n,
        chunk_len(n, k, n) == 0,
        n == 0 ==> rounds(n, k) == 0,
{
    let q = rounds(n, k);
    let r = (n + k - 1) % (k as int);
    assert(n + k - 1 == q * k + r && 0 <= r < k) by (nonlinear_arith)
        requires
            q == (n + k - 1) / (k as int),
            r == (n + k - 1) % (k as int),
            k > 0,
    ;
    assert(q * k >= n);
    assert forall|i: nat| i < q implies {
        &&& #[trigger] cursor_after(n, k, i) == i * k
        &&& 0 < chunk_len(n, k, cursor_after(n, k, i)) <= k
        &&& i + 1 < q ==> chunk_len(n, k, cursor_after(n, k, i)) == k
    } by {
        assert(i * k <= (q - 1) * k) by (nonlinear_arith)
            requires
                i < q,
                k > 0,
        ;
        assert((q - 1) * k == q * k - k) by (nonlinear_arith);
        lemma_full_rounds(n, k, i);
        if i + 1 < q {
            assert((i + 1) * k <= (q - 1) * k) by (nonlinear_arith)
                requires
                    i + 1 < q,
                    k > 0,
            ;
            assert((i + 1) * k == i * k + k) by (nonlinear_arith);
        }
    }
    if q > 0 {
        assert((q - 1) * k == q * k - k) by (nonlinear_arith);
        lemma_full_rounds(n, k, (q - 1) as nat);
        assert(cursor_after(n, k, q) == cursor_after(n, k, (q - 1) as nat) + chunk_len(
            n,
            k,
            cursor_after(n, k, (q - 1) as nat),
        ));
    } else {
        assert(q * k == 0) by (nonlinear_arith)
            requires
                q == 0,
        ;
    }
}

/// Runs the protocol over `items` from a fresh record, with a buffer of the
/// given capacity, until a call hands out nothing. Returns the elements in the
/// order they were handed out and the count each call returned.
pub fn enumerate_all(items: &Vec<ObjectRef>, capacity: u32) -> (res: (Vec<ObjectRef>, Vec<u32>))
    requires
        capacity > 0,
        items@.len() <= u32::MAX,
    ensures
        res.0@ == items@,
        res.1@.len() == rounds(items@.len(), capacity as nat) + 1,
        forall|i: int|
            0 <= i < rounds(items@.len(), capacity as nat) ==> {
                &&& 0 < #[trigger] res.1@[i] <= capacity
                &&& res.1@[i] == chunk_len(items@.len(), capacity as nat, (i * capacity) as nat)
                &&& i + 1 < rounds(items@.len(), capacity as nat) ==> res.1@[i] == capacity
            },
        res.1@[rounds(items@.len(), capacity as nat) as int] == 0,
{
    let ghost n = items@.len();
    let ghost k = capacity as nat;
    proof {
        lemma_enumeration_rounds(n, k);
    }
    let cap: u32 = if (capacity as usize) < items.len() {
        capacity
    } else {
        items.len() as u32
    };
    let mut buf: Vec<ObjectRef> = Vec::new();
    let mut j: u32 = 0;
    while j < cap
        invariant
            j <= cap,
            buf@.len() == j,
        decreases cap - j,
    {
        buf.push(0);
        j = j + 1;
    }
    let mut state = FastEnumState { state: 0, items_ptr: 0, mutations_ptr: 0 };
    let mut out: Vec<ObjectRef> = Vec::new();
    let mut calls: Vec<u32> = Vec::new();
    loop
        invariant
            n == items@.len() <= u32::MAX,
            k == capacity as nat,
            k > 0,
            cap <= buf@.len(),
            cap == (if k < n { k } else { n }),
            state.state as nat == cursor_after(n, k, calls@.len() as nat),
            state.state <= n,
            out@ == items@.subrange(0, state.state as int),
            forall|i: int|
                0 <= i < calls@.len() ==> 0 < #[trigger] calls@[i] && calls@[i] == chunk_len(
                    n,
                    k,
                    cursor_after(n, k, i as nat),
                ),
            forall|i: nat| i < rounds(n, k) ==> #[trigger] cursor_after(n, k, i) == i * k && 0 < chunk_len(
                n,
                k,
                cursor_after(n, k, i),
            ) <= k && (i + 1 < rounds(n, k) ==> chunk_len(n, k, cursor_after(n, k, i)) == k),
            cursor_after(n, k, rounds(n, k)) == n,
        decreases n - state.state,
    {
        let ghost c = state.state as nat;
        let got = enumerate_chunk(items, &mut state, &mut buf, cap, 0, 0);
        assert(n == 0 ==> got == 0);
        assert(got == chunk_len(n, k, c));
        calls.push(got);
        if got == 0 {
            proof {
                let j = calls@.len() - 1;
                assert(calls@[j] == chunk_len(n, k, cursor_after(n, k, j as nat))) by {
                    assert(c == cursor_after(n, k, j as nat));
                }
                if j < rounds(n, k) {
                    assert(chunk_len(n, k, cursor_after(n, k, j as nat)) > 0);
                } else if j > rounds(n, k) {
                    let q = rounds(n, k);
                    assert(calls@[q as int] > 0);
                }
                assert(c == n);
                assert(out@ =~= items@);
            }
            return (out, calls);
        }
        let mut t: u32 = 0;
        while t < got
            invariant
                t <= got,
                c + got <= n,
                n == items@.len(),
                got <= cap <= buf@.len(),
                forall|i: int| 0 <= i < got ==> #[trigger] buf@[i] == items@[c + i],
                out@ == items@.subrange(0, c + t),
            decreases got - t,
        {
            out.push(buf[t as usize]);
            t = t + 1;
            assert(out@ =~= items@.subrange(0, c + t));
        }
        assert(cursor_after(n, k, calls@.len() as nat) == c + chunk_len(n, k, c));
    }
}

} // verus!
