//! A cursor over the Fibonacci numbers.

use crate::linq::iterator::{fixed, LinqIterator};
use vstd::prelude::*;

verus! {

/// The sums that follow the pair `first`, `second`: each is the sum of the two
/// numbers before it, up to the last that a `u32` holds.
pub open spec fn sums_after(first: int, second: int) -> Seq<u32>
    decreases 2 * (u32::MAX - second) + (if first <= 0 { 1int } else { 0int }),
{
    if first < 0 || second <= 0 || first + second > u32::MAX {
        Seq::empty()
    } else {
        seq![(first + second) as u32] + sums_after(second, first + second)
    }
}

/// Yields 1, 2, 3, 5, 8 and so on: each item is the sum of the two before it,
/// starting after 0 and 1. The cursor is exhausted before the first sum that a
/// `u32` cannot hold.
pub struct FibIterator {
    first: u32,
    second: u32,
}

impl FibIterator {
    /// The cursor at its start, after the pair 0, 1.
    pub fn new() -> (r: Self)
        ensures
            r.wf(),
            r.items() == sums_after(0, 1),
            fixed(r, sums_after(0, 1)),
            r.bound() == sums_after(0, 1).len(),
    {
        let r = Self { first: 0, second: 1 };
        proof {
            assert(r.bound() == sums_after(0, 1).len());
            assert forall|s: Seq<u32>| #[trigger] r.yields(s) <==> s == sums_after(0, 1) by {}
            assert forall|p: Seq<u32>| #[trigger] r.begins(p) <==> p.is_prefix_of(
                sums_after(0, 1),
            ) by {}
        }
        r
    }

    /// The items still to come.
    pub closed spec fn items(&self) -> Seq<u32> {
        sums_after(self.first as int, self.second as int)
    }
}

impl LinqIterator for FibIterator {
    type Item = u32;

    closed spec fn wf(&self) -> bool {
        self.second > 0
    }

    closed spec fn begins(&self, p: Seq<u32>) -> bool {
        p.is_prefix_of(self.items())
    }

    closed spec fn yields(&self, s: Seq<u32>) -> bool {
        s == self.items()
    }

    closed spec fn bound(&self) -> nat {
        self.items().len()
    }

    fn next(&mut self) -> (r: Option<u32>)
        ensures
            match r {
                Some(x) => {
                    &&& old(self).items().len() > 0
                    &&& x == old(self).items()[0]
                    &&& final(self).items() == old(self).items().skip(1)
                },
                None => {
                    &&& old(self).items().len() == 0
                    &&& final(self).items() == old(self).items()
                },
            },
    {
        let ghost all = self.items();
        match self.first.checked_add(self.second) {
            Some(sum) => {
                self.first = self.second;
                self.second = sum;
                proof {
                    let rest = self.items();
                    assert(all =~= seq![sum] + rest);
                    assert(rest =~= all.skip(1));
                    assert(seq![sum].is_prefix_of(all));
                    assert forall|p: Seq<u32>| #[trigger] self.begins(p) implies old(self).begins(
                        seq![sum] + p,
                    ) by {
                        assert((seq![sum] + p).is_prefix_of(all));
                    }
                    assert(self.bound() < old(self).bound());
                }
                Some(sum)
            },
            None => {
                proof {
                    assert(self.bound() == 0);
                    assert(all =~= Seq::<u32>::empty());
                    assert(old(self).yields(Seq::empty()));
                }
                None
            },
        }
    }
}

/// The Fibonacci numbers: 0, 1, 1, 2, 3, 5 and so on.
pub open spec fn fib(n: nat) -> nat
    decreases n,
{
    if n == 0 {
        0
    } else if n == 1 {
        1
    } else {
        fib((n - 1) as nat) + fib((n - 2) as nat)
    }
}

/// From the first on, the Fibonacci numbers are positive and never fall.
pub proof fn lemma_fib_grows(n: nat)
    ensures
        fib(n + 1) >= 1,
        fib(n + 1) >= fib(n),
        fib(n + 2) == fib(n) + fib(n + 1),
    decreases n,
{
    if n > 0 {
        lemma_fib_grows((n - 1) as nat);
    }
}

/// A later Fibonacci number is not below an earlier one.
pub proof fn lemma_fib_monotone(m: nat, n: nat)
    requires
        m <= n,
    ensures
        fib(m) <= fib(n),
    decreases n - m,
{
    if m < n {
        lemma_fib_monotone(m, (n - 1) as nat);
        lemma_fib_grows((n - 1) as nat);
    }
}

/// The sums after two neighbouring Fibonacci numbers are the Fibonacci numbers
/// that follow them, and they end just before the first that a `u32` cannot
/// hold.
pub proof fn lemma_sums_are_fib(n: nat)
    requires
        fib(n + 1) <= u32::MAX,
    ensures
        forall|i: int|
            0 <= i < sums_after(fib(n) as int, fib(n + 1) as int).len() ==> (#[trigger] sums_after(
                fib(n) as int,
                fib(n + 1) as int,
            )[i]) == fib((n + 2 + i) as nat),
        fib(n + 2 + sums_after(fib(n) as int, fib(n + 1) as int).len()) > u32::MAX,
    decreases u32::MAX - fib(n + 1), (if fib(n) == 0 { 1int } else { 0int }),
{
    lemma_fib_grows(n);
    lemma_fib_grows(n + 1);
    let s = sums_after(fib(n) as int, fib(n + 1) as int);
    if fib(n) + fib(n + 1) <= u32::MAX {
        let rest = sums_after(fib(n + 1) as int, fib(n + 2) as int);
        lemma_sums_are_fib(n + 1);
        assert(s =~= seq![fib(n + 2) as u32] + rest);
        assert forall|i: int| 0 <= i < s.len() implies (#[trigger] s[i]) == fib(
            (n + 2 + i) as nat,
        ) by {
            if i > 0 {
                assert(s[i] == rest[i - 1]);
                assert((n + 1 + 2 + (i - 1)) as nat == (n + 2 + i) as nat);
            }
        }
        assert(n + 2 + s.len() == n + 1 + 2 + rest.len());
    } else {
        assert(s.len() == 0);
    }
}

/// The two Fibonacci numbers between which the range of a `u32` ends.
pub proof fn lemma_fib_at_the_end()
    ensures
        fib(47) == 2971215073,
        fib(48) == 4807526976,
{
    reveal_with_fuel(fib, 3);
    assert(fib(2) == 1);
    assert(fib(3) == 2);
    assert(fib(4) == 3);
    assert(fib(5) == 5);
    assert(fib(6) == 8);
    assert(fib(7) == 13);
    assert(fib(8) == 21);
    assert(fib(9) == 34);
    assert(fib(10) == 55);
    assert(fib(11) == 89);
    assert(fib(12) == 144);
    assert(fib(13) == 233);
    assert(fib(14) == 377);
    assert(fib(15) == 610);
    assert(fib(16) == 987);
    assert(fib(17) == 1597);
    assert(fib(18) == 2584);
    assert(fib(19) == 4181);
    assert(fib(20) == 6765);
    assert(fib(21) == 10946);
    assert(fib(22) == 17711);
    assert(fib(23) == 28657);
    assert(fib(24) == 46368);
    assert(fib(25) == 75025);
    assert(fib(26) == 121393);
    assert(fib(27) == 196418);
    assert(fib(28) == 317811);
    assert(fib(29) == 514229);
    assert(fib(30) == 832040);
    assert(fib(31) == 1346269);
    assert(fib(32) == 2178309);
    assert(fib(33) == 3524578);
    assert(fib(34) == 5702887);
    assert(fib(35) == 9227465);
    assert(fib(36) == 14930352);
    assert(fib(37) == 24157817);
    assert(fib(38) == 39088169);
    assert(fib(39) == 63245986);
    assert(fib(40) == 102334155);
    assert(fib(41) == 165580141);
    assert(fib(42) == 267914296);
    assert(fib(43) == 433494437);
    assert(fib(44) == 701408733);
    assert(fib(45) == 1134903170);
    assert(fib(46) == 1836311903);
    assert(fib(47) == 2971215073);
    assert(fib(48) == 4807526976);
}

/// The cursor yields 46 numbers: the Fibonacci numbers from the second 1 up to
/// 2971215073.
pub proof fn lemma_fib_cursor_items()
    ensures
        sums_after(0, 1).len() == 46,
        forall|i: int| 0 <= i < 46 ==> (#[trigger] sums_after(0, 1)[i]) == fib((i + 2) as nat),
{
    let s = sums_after(0, 1);
    reveal_with_fuel(fib, 3);
    assert(fib(0) == 0 && fib(1) == 1);
    lemma_sums_are_fib(0);
    lemma_fib_at_the_end();
    let len = s.len();
    if len > 46 {
        assert(s[46] == fib(48));
    }
    if len < 46 {
        lemma_fib_monotone(2 + len, 47);
    }
    assert forall|i: int| 0 <= i < 46 implies (#[trigger] s[i]) == fib((i + 2) as nat) by {
        assert((0 + 2 + i) as nat == (i + 2) as nat);
    }
}

} // verus!
