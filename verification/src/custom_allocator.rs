//! The bookkeeping of an allocator that tracks leaks: which blocks are live, what each
//! allocation call does to that record, and the report of what was never given back.
use std::collections::HashSet;
use vstd::std_specs::iter::IteratorSpec;
use vstd::prelude::*;

use crate::error_framework::{decimal, decimal_text, joined};

verus! {

broadcast use vstd::std_specs::hash::group_hash_axioms;

/// The lowercase hexadecimal digits of `n`.
pub open spec fn hex(n: nat) -> Seq<char>
    decreases n,
{
    if n < 16 {
        seq![hex_digit(n)]
    } else {
        hex(n / 16) + seq![hex_digit(n % 16)]
    }
}

/// The lowercase hexadecimal digit for `d` (below 16).
pub open spec fn hex_digit(d: nat) -> char {
    if d < 10 {
        (48 + d) as char
    } else {
        (87 + d) as char
    }
}

/// `format!("{:x}", n)`: `n` in lowercase hexadecimal.
#[verifier::external_body]
fn hex_text(n: usize) -> (r: String)
    ensures
        r@ == hex(n as nat),
{
    format!("{:x}", n)
}

/// The report line for a block that was never given back.
pub open spec fn leak_line(addr: usize) -> Seq<char> {
    "   \u{26a0}\u{fe0f} 0x"@ + hex(addr as nat)
}

/// The lines of a leak report on the blocks `leaks`: a line that says none leaked, or a
/// line with their number followed by one line for each, in the order given.
pub fn leak_report(leaks: &[usize]) -> (r: Vec<String>)
    ensures
        leaks@.len() == 0 ==> r@.len() == 1 && r@[0]@ == "\u{2705} No memory leaks detected."@,
        leaks@.len() > 0 ==> {
            &&& r@.len() == leaks@.len() + 1
            &&& r@[0]@ == "\u{274c} Leaked "@ + decimal(leaks@.len()) + " allocation(s):"@
            &&& forall|i: int| 0 <= i < leaks@.len() ==> #[trigger] r@[i + 1]@ == leak_line(leaks@[i])
        },
{
    let mut r: Vec<String> = Vec::new();
    if leaks.len() == 0 {
        r.push(String::from_str("\u{2705} No memory leaks detected."));
        return r;
    }
    let mut head = joined("\u{274c} Leaked ", decimal_text(leaks.len() as u64).as_str());
    head.append(" allocation(s):");
    r.push(head);
    let mut i: usize = 0;
    while i < leaks.len()
        invariant
            i <= leaks@.len(),
            r@.len() == i + 1,
            r@[0]@ == "\u{274c} Leaked "@ + decimal(leaks@.len()) + " allocation(s):"@,
            forall|k: int| 0 <= k < i ==> #[trigger] r@[k + 1]@ == leak_line(leaks@[k]),
        decreases leaks@.len() - i,
    {
        let line = joined("   \u{26a0}\u{fe0f} 0x", hex_text(leaks[i]).as_str());
        r.push(line);
        i = i + 1;
    }
    r
}

/// The addresses of the blocks that an allocator has handed out and not yet taken back.
pub struct LeakTracker {
    live: HashSet<usize>,
}

impl LeakTracker {
    /// The addresses of the live blocks.
    pub closed spec fn view(&self) -> Set<usize> {
        self.live@
    }

    /// A record with no live block.
    pub fn new() -> (r: Self)
        ensures
            r@ == Set::<usize>::empty(),
    {
        LeakTracker { live: HashSet::new() }
    }

    /// Records what an allocation returned: a block at `addr`, unless the allocation
    /// failed (address 0).
    pub fn record_alloc(&mut self, addr: usize)
        ensures
            final(self)@ == if addr == 0 {
                old(self)@
            } else {
                old(self)@.insert(addr)
            },
    {
        if addr != 0 {
            self.live.insert(addr);
        }
    }

    /// Records that the block at `addr` was given back, and says whether it was live. A
    /// block that was not live is a double or invalid free.
    pub fn record_dealloc(&mut self, addr: usize) -> (removed: bool)
        ensures
            removed == old(self)@.contains(addr),
            final(self)@ == old(self)@.remove(addr),
    {
        self.live.remove(&addr)
    }

    /// Records a reallocation: the block at `old_addr` is gone, and the block at
    /// `new_addr` is live unless the reallocation failed (address 0).
    pub fn record_realloc(&mut self, old_addr: usize, new_addr: usize)
        ensures
            final(self)@ == if new_addr == 0 {
                old(self)@.remove(old_addr)
            } else {
                old(self)@.remove(old_addr).insert(new_addr)
            },
    {
        self.live.remove(&old_addr);
        if new_addr != 0 {
            self.live.insert(new_addr);
        }
    }

    /// The number of live blocks.
    pub fn live_count(&self) -> (r: usize)
        ensures
            r == self@.len(),
    {
        self.live.len()
    }

    /// The addresses of the live blocks, each once, in no particular order.
    pub fn leaks(&self) -> (r: Vec<usize>)
        ensures
            r@.to_set() == self@,
            r@.no_duplicates(),
            r@.len() == self@.len(),
    {
        let ghost keys = vstd::std_specs::hash::spec_hash_keys_iter(&self.live).remaining();
        let mut r: Vec<usize> = Vec::new();
        for a in it: self.live.iter()
            invariant
                it.seq() == keys,
                r@ == keys.unref().take(it.index() as int),
        {
            r.push(*a);
        }
        proof {
            assert(r@ =~= keys.unref());
            assert(keys.unref().no_duplicates());
        }
        r
    }

    /// The lines of the report on the live blocks, which are leaks when the program is
    /// about to end: a line that says none leaked, or a line with their number followed by
    /// one line for each, in some order.
    pub fn report_leaks(&self) -> (r: Vec<String>)
        ensures
            self@.len() == 0 ==> r@.len() == 1 && r@[0]@ == "\u{2705} No memory leaks detected."@,
            self@.len() > 0 ==> exists|order: Seq<usize>| {
                &&& #[trigger] order.to_set() == self@
                &&& order.no_duplicates()
                &&& order.len() == self@.len()
                &&& r@.len() == order.len() + 1
                &&& r@[0]@ == "\u{274c} Leaked "@ + decimal(order.len()) + " allocation(s):"@
                &&& forall|i: int| 0 <= i < order.len() ==> #[trigger] r@[i + 1]@ == leak_line(order[i])
            },
    {
        let leaks = self.leaks();
        leak_report(leaks.as_slice())
    }
}

/// Giving back a block right after it was handed out leaves the record as it was, and the
/// block is no longer live: a block that was freed is never reported as a leak.
pub proof fn law_dealloc_undoes_alloc(live: Set<usize>, addr: usize)
    requires
        addr != 0,
        !live.contains(addr),
    ensures
        live.insert(addr).contains(addr),
        live.insert(addr).remove(addr) == live,
        !live.insert(addr).remove(addr).contains(addr),
{
    assert(live.insert(addr).remove(addr) =~= live);
}

} // verus!
