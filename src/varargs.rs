//! Sentinel-terminated variadic argument lists: a cursor over consecutive
//! argument words in guest memory that stops at the first `NIL`.
use vstd::prelude::*;

use crate::error::Fatal;
use crate::memory::{word_at, word_ok, GuestMemory};
use crate::store::{ObjectRef, NIL};

verus! {

/// Whether the argument word at `addr` can be read and stepped past.
pub open spec fn arg_readable(len: nat, addr: int) -> bool {
    word_ok(len, addr) && addr + 4 <= u32::MAX
}

/// The `i`-th argument word of a list that starts at `start`.
pub open spec fn arg_word(mem: Seq<u8>, start: int, i: int) -> int {
    word_at(mem, start + 4 * i)
}

/// The list at `start` holds no sentinel before its `k`-th word, and that word
/// cannot be read.
pub open spec fn runs_off_memory(mem: Seq<u8>, start: int, k: int) -> bool {
    &&& 0 <= k
    &&& !arg_readable(mem.len(), start + 4 * k)
    &&& forall|i: int| 0 <= i < k ==> #[trigger] arg_word(mem, start, i) != NIL
}

/// The list at `start` ends with its sentinel at word `n`: words `0..=n` can be
/// read, the first `n` are not `NIL`, and word `n` is.
pub open spec fn terminated_at(mem: Seq<u8>, start: int, n: int) -> bool {
    &&& 0 <= n
    &&& forall|i: int| 0 <= i <= n ==> #[trigger] arg_readable(mem.len(), start + 4 * i)
    &&& forall|i: int| 0 <= i < n ==> #[trigger] arg_word(mem, start, i) != NIL
    &&& arg_word(mem, start, n) == NIL
}

/// The first `n` argument words of the list at `start`, as identities.
pub open spec fn list_args(mem: Seq<u8>, start: int, n: int) -> Seq<ObjectRef> {
    Seq::new(n as nat, |i: int| arg_word(mem, start, i) as ObjectRef)
}

/// A cursor over the argument words of one call.
pub struct VaList {
    /// The address of the next word to read.
    pub next_addr: u32,
}

impl VaList {
    /// A cursor at the first argument word, at `addr`.
    pub fn start(addr: u32) -> (l: Self)
        ensures
            l.next_addr == addr,
    {
        VaList { next_addr: addr }
    }

    /// Reads the next argument word and steps past it.
    pub fn next(&mut self, mem: &GuestMemory) -> (res: Result<ObjectRef, Fatal>)
        ensures
            !arg_readable(mem@.len(), old(self).next_addr as int) ==> res == Err::<ObjectRef, Fatal>(
                Fatal::BadAddress,
            ) && *final(self) == *old(self),
            arg_readable(mem@.len(), old(self).next_addr as int) ==> {
                &&& res == Ok::<ObjectRef, Fatal>(word_at(mem@, old(self).next_addr as int) as u32)
                &&& word_at(mem@, old(self).next_addr as int) <= u32::MAX
                &&& final(self).next_addr == old(self).next_addr + 4
            },
    {
        if self.next_addr > u32::MAX - 4 {
            return Err(Fatal::BadAddress);
        }
        let w = mem.read_u32(self.next_addr);
        match w {
            Ok(v) => {
                self.next_addr = self.next_addr + 4;
                Ok(v)
            },
            Err(e) => Err(e),
        }
    }
}

/// Reads the arguments of a list up to its sentinel. The result holds exactly
/// the words before the first `NIL`, in order, and never the `NIL` itself; the
/// cursor ends just past the sentinel. A list that runs out of readable memory
/// before a sentinel is an error.
pub fn collect_va_args(mem: &GuestMemory, list: &mut VaList) -> (res: Result<Vec<ObjectRef>, Fatal>)
    ensures
        res matches Ok(v) ==> {
            &&& forall|i: int|
                0 <= i < v@.len() ==> arg_readable(mem@.len(), old(list).next_addr + 4 * i)
                    && #[trigger] v@[i] == arg_word(mem@, old(list).next_addr as int, i) && v@[i]
                    != NIL
            &&& arg_readable(mem@.len(), old(list).next_addr + 4 * v@.len())
            &&& arg_word(mem@, old(list).next_addr as int, v@.len() as int) == NIL
            &&& final(list).next_addr == old(list).next_addr + 4 * (v@.len() + 1)
        },
        res is Err ==> {
            &&& res == Err::<Vec<ObjectRef>, Fatal>(Fatal::BadAddress)
            &&& exists|k: int| #[trigger] runs_off_memory(mem@, old(list).next_addr as int, k)
        },
{
    let ghost start = list.next_addr as int;
    let mut v: Vec<ObjectRef> = Vec::new();
    loop
        invariant
            start == old(list).next_addr,
            list.next_addr == start + 4 * v@.len(),
            forall|i: int|
                0 <= i < v@.len() ==> arg_readable(mem@.len(), start + 4 * i) && #[trigger] v@[i]
                    == arg_word(mem@, start, i) && v@[i] != NIL,
        decreases u32::MAX - list.next_addr,
    {
        let ghost k = v@.len() as int;
        match list.next(mem) {
            Err(e) => {
                assert(!arg_readable(mem@.len(), (old(list).next_addr + 4 * k)));
                assert(runs_off_memory(mem@, start, k)) by {
                    assert forall|i: int| 0 <= i < k implies #[trigger] arg_word(mem@, start, i) != NIL by {
                        assert(v@[i] == arg_word(mem@, start, i));
                    }
                }
                return Err(e);
            },
            Ok(w) => {
                if w == NIL {
                    return Ok(v);
                }
                v.push(w);
            },
        }
    }
}

} // verus!
