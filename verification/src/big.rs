//! Natural numbers of any size, for sums of products that outgrow the machine's integers.

use vstd::arithmetic::div_mod::lemma_fundamental_div_mod;
use vstd::prelude::*;

verus! {

/// The base of the limbs.
pub const BASE: u64 = 4_294_967_296;

/// A limb, with zeros past the end.
spec fn limb(l: Seq<u32>, i: int) -> nat {
    if 0 <= i < l.len() {
        l[i] as nat
    } else {
        0
    }
}

/// What the first `n` limbs amount to, the least significant first.
spec fn upto(l: Seq<u32>, n: nat) -> nat
    decreases n,
{
    if n == 0 {
        0
    } else {
        upto(l, (n - 1) as nat) + limb(l, n - 1) * scale((n - 1) as nat)
    }
}

spec fn scale(n: nat) -> nat
    decreases n,
{
    if n == 0 {
        1
    } else {
        BASE as nat * scale((n - 1) as nat)
    }
}

/// Limbs past the end add nothing.
proof fn lemma_padding(l: Seq<u32>, n: nat)
    requires
        n >= l.len(),
    ensures
        upto(l, n) == upto(l, l.len()),
    decreases n,
{
    if n > l.len() {
        lemma_padding(l, (n - 1) as nat);
        assert(limb(l, n - 1) * scale((n - 1) as nat) == 0) by (nonlinear_arith)
            requires
                limb(l, n - 1) == 0,
        ;
    }
}

proof fn lemma_same_prefix(a: Seq<u32>, b: Seq<u32>, n: nat)
    requires
        forall|i: int| 0 <= i < n ==> limb(a, i) == #[trigger] limb(b, i),
    ensures
        upto(a, n) == upto(b, n),
    decreases n,
{
    if n > 0 {
        lemma_same_prefix(a, b, (n - 1) as nat);
        assert(limb(a, n - 1) == limb(b, n - 1));
    }
}

/// `n` limbs stay below the next power of the base.
proof fn lemma_upto_bound(l: Seq<u32>, n: nat)
    ensures
        upto(l, n) < scale(n),
    decreases n,
{
    if n > 0 {
        let m = (n - 1) as nat;
        lemma_upto_bound(l, m);
        let d = limb(l, n - 1);
        let s = scale(m);
        assert(d * s + s <= BASE as nat * s) by (nonlinear_arith)
            requires
                d < BASE,
        ;
    }
}

/// A natural number of any size.
pub struct Big {
    limbs: Vec<u32>,
}

impl Big {
    pub closed spec fn view(&self) -> nat {
        upto(self.limbs@, self.limbs@.len())
    }

    pub fn zero() -> (r: Self)
        ensures
            r@ == 0,
    {
        Big { limbs: Vec::new() }
    }

    /// The number `v`.
    pub fn of(v: u128) -> (r: Self)
        ensures
            r@ == v,
    {
        let mut limbs: Vec<u32> = Vec::new();
        let mut rest: u128 = v;
        assert(v * scale(0) == v) by (nonlinear_arith)
            requires
                scale(0) == 1,
        ;
        while rest > 0
            invariant
                v == upto(limbs@, limbs@.len()) + rest * scale(limbs@.len()),
            decreases rest,
        {
            let d: u32 = (rest % (BASE as u128)) as u32;
            let next: u128 = rest / (BASE as u128);
            let ghost before = limbs@;
            let ghost n = before.len();
            limbs.push(d);
            proof {
                lemma_same_prefix(limbs@, before, n);
                assert(limb(limbs@, n as int) == d);
                let s = scale(n);
                lemma_fundamental_div_mod(rest as int, BASE as int);
                assert(rest == next * BASE + d) by (nonlinear_arith)
                    requires
                        rest == BASE * next + d,
                ;
                assert(rest * s == d * s + next * (BASE as nat * s)) by (nonlinear_arith)
                    requires
                        rest == next * BASE + d,
                ;
            }
            rest = next;
        }
        assert(rest * scale(limbs@.len()) == 0) by (nonlinear_arith)
            requires
                rest == 0,
        ;
        Big { limbs }
    }

    fn limb_at(&self, i: usize) -> (d: u32)
        ensures
            d == limb(self.limbs@, i as int),
    {
        if i < self.limbs.len() {
            self.limbs[i]
        } else {
            0
        }
    }

    /// `self + other`.
    pub fn plus(&self, other: &Big) -> (r: Big)
        ensures
            r@ == self@ + other@,
    {
        let n: usize = if self.limbs.len() > other.limbs.len() {
            self.limbs.len()
        } else {
            other.limbs.len()
        };
        let mut limbs: Vec<u32> = Vec::new();
        let mut carry: u64 = 0;
        let mut i: usize = 0;
        while i < n
            invariant
                i <= n,
                limbs@.len() == i,
                carry <= 1,
                upto(limbs@, i as nat) + carry * scale(i as nat) == upto(self.limbs@, i as nat)
                    + upto(other.limbs@, i as nat),
            decreases n - i,
        {
            let a: u64 = self.limb_at(i) as u64;
            let b: u64 = other.limb_at(i) as u64;
            let sum: u64 = a + b + carry;
            let d: u32 = (sum % BASE) as u32;
            let next: u64 = sum / BASE;
            let ghost before = limbs@;
            limbs.push(d);
            proof {
                lemma_same_prefix(limbs@, before, i as nat);
                assert(limb(limbs@, i as int) == d);
                let s = scale(i as nat);
                assert(sum == next * BASE + d);
                assert(d * s + next * (BASE as nat * s) == a * s + b * s + carry * s)
                    by (nonlinear_arith)
                    requires
                        next * BASE + d == a + b + carry,
                ;
            }
            carry = next;
            i = i + 1;
        }
        proof {
            lemma_padding(self.limbs@, n as nat);
            lemma_padding(other.limbs@, n as nat);
        }
        let ghost before = limbs@;
        limbs.push(carry as u32);
        proof {
            lemma_same_prefix(limbs@, before, n as nat);
            assert(limb(limbs@, n as int) == carry);
        }
        Big { limbs }
    }

    /// `self * d`.
    fn times_limb(&self, d: u32) -> (r: Big)
        ensures
            r@ == self@ * d,
    {
        let n: usize = self.limbs.len();
        let mut limbs: Vec<u32> = Vec::new();
        let mut carry: u64 = 0;
        let mut i: usize = 0;
        assert(0 * d == 0) by (nonlinear_arith);
        assert(carry * scale(0) == 0) by (nonlinear_arith)
            requires
                carry == 0,
        ;
        while i < n
            invariant
                i <= n,
                n == self.limbs@.len(),
                limbs@.len() == i,
                carry < BASE,
                upto(limbs@, i as nat) + carry * scale(i as nat) == upto(self.limbs@, i as nat) * d,
            decreases n - i,
        {
            let a: u64 = self.limbs[i] as u64;
            assert(a * (d as u64) + carry <= u64::MAX) by (nonlinear_arith)
                requires
                    a < 4_294_967_296,
                    d < 4_294_967_296,
                    carry < 4_294_967_296,
            ;
            let prod: u64 = a * (d as u64) + carry;
            let low: u32 = (prod % BASE) as u32;
            let next: u64 = prod / BASE;
            let ghost before = limbs@;
            limbs.push(low);
            proof {
                lemma_same_prefix(limbs@, before, i as nat);
                assert(limb(limbs@, i as int) == low);
                let s = scale(i as nat);
                let u = upto(self.limbs@, i as nat);
                let v = upto(before, i as nat);
                assert(prod == next * BASE + low);
                assert(v + low * s + next * (BASE as nat * s) == (u + a * s) * d)
                    by (nonlinear_arith)
                    requires
                        next * BASE + low == a * d + carry,
                        v + carry * s == u * d,
                ;
            }
            carry = next;
            i = i + 1;
        }
        let ghost before = limbs@;
        limbs.push(carry as u32);
        proof {
            lemma_same_prefix(limbs@, before, n as nat);
            assert(limb(limbs@, n as int) == carry);
        }
        Big { limbs }
    }

    /// `self * BASE`.
    fn shifted(self) -> (r: Big)
        ensures
            r@ == self@ * BASE,
    {
        let mut limbs = self.limbs;
        let ghost before = limbs@;
        limbs.insert(0, 0u32);
        proof {
            lemma_shift(before, before.len());
            assert(limbs@ =~= seq![0u32] + before);
        }
        Big { limbs }
    }

    /// `self * other`.
    pub fn times(&self, other: &Big) -> (r: Big)
        ensures
            r@ == self@ * other@,
    {
        let mut acc = Big::zero();
        let mut j: usize = other.limbs.len();
        let ghost all = other.limbs@;
        assert(self@ * suffix(all, all.len()) == 0) by (nonlinear_arith)
            requires
                suffix(all, all.len()) == 0,
        ;
        while j > 0
            invariant
                j <= all.len(),
                all == other.limbs@,
                acc@ == self@ * suffix(all, j as nat),
            decreases j,
        {
            j = j - 1;
            let d: u32 = other.limbs[j];
            let part = self.times_limb(d);
            let ghost before = acc@;
            acc = acc.shifted().plus(&part);
            proof {
                let a = self@;
                let rest = suffix(all, (j + 1) as nat);
                assert(before * BASE + a * d == a * (d + BASE as nat * rest)) by (nonlinear_arith)
                    requires
                        before == a * rest,
                ;
            }
        }
        proof {
            lemma_suffix(all, all.len());
            assert(scale(all.len()) * suffix(all, all.len()) == 0) by (nonlinear_arith)
                requires
                    suffix(all, all.len()) == 0,
            ;
        }
        acc
    }

    /// `self <= other`.
    pub fn at_most(&self, other: &Big) -> (r: bool)
        ensures
            r == (self@ <= other@),
    {
        let n: usize = if self.limbs.len() > other.limbs.len() {
            self.limbs.len()
        } else {
            other.limbs.len()
        };
        proof {
            lemma_padding(self.limbs@, n as nat);
            lemma_padding(other.limbs@, n as nat);
        }
        let mut i: usize = n;
        while i > 0
            invariant
                i <= n,
                self@ - upto(self.limbs@, i as nat) == other@ - upto(other.limbs@, i as nat),
            decreases i,
        {
            i = i - 1;
            let a = self.limb_at(i);
            let b = other.limb_at(i);
            proof {
                lemma_upto_bound(self.limbs@, i as nat);
                lemma_upto_bound(other.limbs@, i as nat);
                let s = scale(i as nat);
                if a < b {
                    assert(a * s + s <= b * s) by (nonlinear_arith)
                        requires
                            a + 1 <= b,
                    ;
                } else if b < a {
                    assert(b * s + s <= a * s) by (nonlinear_arith)
                        requires
                            b + 1 <= a,
                    ;
                }
            }
            if a < b {
                return true;
            }
            if b < a {
                return false;
            }
        }
        true
    }
}

proof fn lemma_shift(l: Seq<u32>, n: nat)
    ensures
        upto(seq![0u32] + l, n + 1) == upto(l, n) * BASE,
    decreases n,
{
    let m = seq![0u32] + l;
    if n == 0 {
        assert(upto(m, 0) == 0);
        assert(limb(m, 0) * scale(0) == 0) by (nonlinear_arith)
            requires
                limb(m, 0) == 0,
        ;
    } else {
        lemma_shift(l, (n - 1) as nat);
        let d = limb(l, n - 1);
        assert(limb(m, n as int) == d);
        let s = scale((n - 1) as nat);
        let u = upto(l, (n - 1) as nat);
        assert(u * BASE + d * (BASE as nat * s) == (u + d * s) * BASE) by (nonlinear_arith);
    }
}

/// What the limbs from `j` on amount to, in units of the first of them.
spec fn suffix(l: Seq<u32>, j: nat) -> nat
    decreases l.len() - j,
{
    if j >= l.len() {
        0
    } else {
        l[j as int] as nat + BASE as nat * suffix(l, j + 1)
    }
}

proof fn lemma_suffix(l: Seq<u32>, n: nat)
    requires
        n <= l.len(),
    ensures
        upto(l, n) + scale(n) * suffix(l, n) == suffix(l, 0),
    decreases n,
{
    if n > 0 {
        let m = (n - 1) as nat;
        lemma_suffix(l, m);
        let s = scale(m);
        let d = l[n - 1] as nat;
        let rest = suffix(l, n);
        assert(suffix(l, m) == d + BASE as nat * rest);
        assert(d * s + (BASE as nat * s) * rest == s * (d + BASE as nat * rest))
            by (nonlinear_arith);
    } else {
        assert(scale(0) * suffix(l, 0) == suffix(l, 0)) by (nonlinear_arith)
            requires
                scale(0) == 1,
        ;
    }
}

} // verus!
