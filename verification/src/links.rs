//! Lists of children, chained through two flat vectors: no vector per folder.

use vstd::prelude::*;

verus! {

/// The end of a chain, and the owner of what nobody owns.
pub const NONE: u32 = 0xFFFF_FFFF;

/// The items below `k` that `p` owns, the last one first.
pub open spec fn owned(owners: Seq<u32>, k: int, p: u32) -> Seq<u32>
    decreases k,
{
    if k <= 0 {
        Seq::empty()
    } else if owners[k - 1] == p {
        seq![(k - 1) as u32] + owned(owners, k - 1, p)
    } else {
        owned(owners, k - 1, p)
    }
}

/// Every link of the vector goes down or ends.
pub open spec fn goes_down(next: Seq<u32>) -> bool {
    forall|j: int| 0 <= j < next.len() ==> (#[trigger] next[j] == NONE || next[j] < j)
}

spec fn rank(c: u32) -> int {
    if c == NONE {
        0
    } else {
        c + 1
    }
}

/// The items met by following the links from `c`.
pub open spec fn follow(next: Seq<u32>, c: u32) -> Seq<u32>
    decreases
            (if c == NONE {
                0
            } else {
                c + 1
            }),
{
    if c == NONE || c >= next.len() {
        Seq::empty()
    } else if next[c as int] == NONE || next[c as int] < c {
        seq![c] + follow(next, next[c as int])
    } else {
        seq![c]
    }
}

proof fn lemma_follow_push(next: Seq<u32>, x: u32, c: u32)
    requires
        goes_down(next),
        c == NONE || c < next.len(),
        next.len() < NONE,
    ensures
        follow(next.push(x), c) == follow(next, c),
    decreases rank(c),
{
    if c != NONE {
        assert(next.push(x)[c as int] == next[c as int]);
        lemma_follow_push(next, x, next[c as int]);
    }
}

/// Chained lists: `head[p]` is where the list of `p` starts, `next[c]` what comes
/// after `c`.
pub struct Links {
    pub head: Vec<u32>,
    pub next: Vec<u32>,
}

impl Links {
    /// The lists are those of `owners`, for `n` owners.
    pub open spec fn chains(self, n: int, owners: Seq<u32>) -> bool {
        &&& self.head@.len() == n
        &&& self.next@.len() == owners.len()
        &&& owners.len() <= NONE
        &&& goes_down(self.next@)
        &&& forall|p: int|
            0 <= p < n ==> (#[trigger] self.head@[p] == NONE || self.head@[p] < owners.len())
        &&& forall|p: int|
            0 <= p < n ==> follow(self.next@, #[trigger] self.head@[p]) == owned(
                owners,
                owners.len() as int,
                p as u32,
            )
    }

    /// Chains every item to its owner. An owner that is not below `n` is nobody.
    pub fn build(n: usize, owners: &Vec<u32>) -> (l: Links)
        requires
            n <= NONE,
            owners@.len() <= NONE,
        ensures
            l.chains(n as int, owners@),
    {
        let mut l = Links { head: Vec::new(), next: Vec::new() };
        let mut i: usize = 0;
        while i < n
            invariant
                i <= n,
                l.head@.len() == i,
                l.next@.len() == 0,
                forall|p: int| 0 <= p < i ==> #[trigger] l.head@[p] == NONE,
            decreases n - i,
        {
            l.head.push(NONE);
            i = i + 1;
        }
        let mut k: usize = 0;
        while k < owners.len()
            invariant
                k <= owners@.len() <= NONE,
                n <= NONE,
                l.head@.len() == n,
                l.next@.len() == k,
                goes_down(l.next@),
                forall|p: int| 0 <= p < n ==> (#[trigger] l.head@[p] == NONE || l.head@[p] < k),
                forall|p: int|
                    0 <= p < n ==> follow(l.next@, #[trigger] l.head@[p]) == owned(
                        owners@,
                        k as int,
                        p as u32,
                    ),
            decreases owners@.len() - k,
        {
            let p: usize = owners[k] as usize;
            let ghost next0 = l.next@;
            let ghost head0 = l.head@;
            let x: u32 = if p < n {
                l.head[p]
            } else {
                NONE
            };
            l.next.push(x);
            if p < n {
                l.head.set(p, k as u32);
            }
            proof {
                assert(goes_down(l.next@));
                assert forall|q: int| 0 <= q < n implies follow(l.next@, #[trigger] l.head@[q])
                    == owned(owners@, k + 1, q as u32) by {
                    assert(head0[q] == NONE || head0[q] < k);
                    lemma_follow_push(next0, x, head0[q]);
                    assert(follow(next0, head0[q]) == owned(owners@, k as int, q as u32));
                    if q == p {
                        assert(l.next@[k as int] == x);
                        assert(follow(l.next@, k as u32) == seq![k as u32] + follow(l.next@, x));
                    }
                }
            }
            k = k + 1;
        }
        l
    }

    /// The items of owner `p`, the last one first; none where there is no such owner.
    pub fn list(&self, p: u32, n: Ghost<int>, owners: Ghost<Seq<u32>>) -> (r: Vec<u32>)
        requires
            self.chains(n@, owners@),
        ensures
            p < n@ ==> r@ == owned(owners@, owners@.len() as int, p),
            p >= n@ ==> r@ == Seq::<u32>::empty(),
    {
        let mut out: Vec<u32> = Vec::new();
        if p as usize >= self.head.len() {
            return out;
        }
        let mut c: u32 = self.head[p as usize];
        let ghost all = follow(self.next@, c);
        while c != NONE
            invariant
                c == NONE || c < self.next@.len(),
                goes_down(self.next@),
                self.next@.len() <= NONE,
                out@ + follow(self.next@, c) == all,
            decreases rank(c),
        {
            let ghost before = out@;
            out.push(c);
            let ghost c0 = c;
            c = self.next[c as usize];
            proof {
                assert(follow(self.next@, c0) == seq![c0] + follow(self.next@, c));
                assert(out@ + follow(self.next@, c) =~= before + follow(self.next@, c0));
            }
        }
        assert(out@ =~= all);
        out
    }
}

} // verus!
