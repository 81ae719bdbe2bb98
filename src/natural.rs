use vstd::prelude::*;

verus! {

/// The radix of a limb: 2^64.
pub open spec fn radix() -> nat {
    0x1_0000_0000_0000_0000
}

/// The weight of limb `k`: radix^k.
pub open spec fn place(k: nat) -> nat
    decreases k,
{
    if k == 0 {
        1
    } else {
        place((k - 1) as nat) * radix()
    }
}

/// The number that little-endian limbs write.
pub open spec fn value(limbs: Seq<u64>) -> nat
    decreases limbs.len(),
{
    if limbs.len() == 0 {
        0
    } else {
        value(limbs.drop_last()) + (limbs.last() as nat) * place((limbs.len() - 1) as nat)
    }
}

/// Limb `k`, or zero past the end.
pub open spec fn limb_at(limbs: Seq<u64>, k: int) -> nat {
    if 0 <= k < limbs.len() {
        limbs[k] as nat
    } else {
        0
    }
}

/// The number that the first `k` limbs write, with zeros past the end.
pub open spec fn value_upto(limbs: Seq<u64>, k: nat) -> nat
    decreases k,
{
    if k == 0 {
        0
    } else {
        value_upto(limbs, (k - 1) as nat) + limb_at(limbs, k - 1) * place((k - 1) as nat)
    }
}

proof fn lemma_place_positive(k: nat)
    ensures
        place(k) > 0,
    decreases k,
{
    if k > 0 {
        lemma_place_positive((k - 1) as nat);
        assert(place((k - 1) as nat) * radix() > 0) by (nonlinear_arith)
            requires
                place((k - 1) as nat) > 0,
        ;
    }
}

proof fn lemma_value_upto_bound(limbs: Seq<u64>, k: nat)
    ensures
        value_upto(limbs, k) < place(k),
    decreases k,
{
    if k > 0 {
        let j = (k - 1) as nat;
        lemma_value_upto_bound(limbs, j);
        let p = place(j);
        let v = value_upto(limbs, j);
        let l = limb_at(limbs, j as int);
        assert(l < radix());
        assert(v + l * p < p * radix()) by (nonlinear_arith)
            requires
                v < p,
                l < radix(),
        ;
    }
}

proof fn lemma_value_upto_take(limbs: Seq<u64>, k: nat)
    requires
        k <= limbs.len(),
    ensures
        value_upto(limbs, k) == value(limbs.take(k as int)),
    decreases k,
{
    if k > 0 {
        lemma_value_upto_take(limbs, (k - 1) as nat);
        assert(limbs.take(k as int).drop_last() =~= limbs.take(k - 1));
    }
}

proof fn lemma_value_upto_past(limbs: Seq<u64>, k: nat)
    requires
        k >= limbs.len(),
    ensures
        value_upto(limbs, k) == value(limbs),
    decreases k,
{
    if k > limbs.len() {
        lemma_value_upto_past(limbs, (k - 1) as nat);
    } else {
        lemma_value_upto_take(limbs, k);
        assert(limbs.take(k as int) =~= limbs);
    }
}

/// A natural number of any size.
pub struct Natural {
    limbs: Vec<u64>,
}

impl View for Natural {
    type V = nat;

    closed spec fn view(&self) -> nat {
        value(self.limbs@)
    }
}

impl Natural {
    /// The number `n`.
    pub fn from_usize(n: usize) -> (r: Natural)
        ensures
            r@ == n,
    {
        let mut limbs: Vec<u64> = Vec::new();
        limbs.push(n as u64);
        assert(limbs@.drop_last() =~= Seq::<u64>::empty());
        assert(place(0) == 1);
        assert(value(Seq::<u64>::empty()) == 0);
        assert(limbs@.last() == n as u64);
        assert(value(limbs@) == value(limbs@.drop_last()) + (limbs@.last() as nat) * place(0));
        Natural { limbs }
    }

    /// Multiplies the number by `m`.
    pub fn mul_usize(&mut self, m: usize)
        ensures
            final(self)@ == old(self)@ * m,
    {
        let ghost src = self.limbs@;
        let mut res: Vec<u64> = Vec::new();
        let mut carry: u64 = 0;
        let mut i: usize = 0;
        assert(src.take(0) =~= Seq::<u64>::empty());
        assert(value(res@) == 0);
        while i < self.limbs.len()
            invariant
                self.limbs@ == src,
                i <= src.len(),
                res@.len() == i,
                value(res@) + carry * place(i as nat) == value(src.take(i as int)) * m,
            decreases src.len() - i,
        {
            let l = self.limbs[i];
            let big: u128 = 0x1_0000_0000_0000_0000;
            assert((l as u128) * (m as u128) <= 0xFFFF_FFFF_FFFF_FFFE_0000_0000_0000_0001u128)
                by (nonlinear_arith)
                requires
                    l <= 0xFFFF_FFFF_FFFF_FFFFu64,
                    m <= 0xFFFF_FFFF_FFFF_FFFFu64,
            ;
            let t: u128 = (l as u128) * (m as u128) + carry as u128;
            let d: u64 = (t % big) as u64;
            let c: u64 = (t / big) as u64;
            proof {
                let p = place(i as nat);
                let v = value(res@);
                let tn = t as nat;
                assert(tn == d + c * radix());
                assert(res@.push(d).drop_last() =~= res@);
                assert(src.take(i + 1).drop_last() =~= src.take(i as int));
                assert(src.take(i + 1).last() == l);
                assert(place((i + 1) as nat) == p * radix());
                assert(value(res@.push(d)) == v + d * p);
                assert(value(src.take(i + 1)) == value(src.take(i as int)) + l * p);
                assert(v + d * p + c * (p * radix()) == value(src.take(i + 1)) * m) by (nonlinear_arith)
                    requires
                        v + carry * p == value(src.take(i as int)) * m,
                        tn == d + c * radix(),
                        tn == l * m + carry,
                        value(src.take(i + 1)) == value(src.take(i as int)) + l * p,
                ;
            }
            res.push(d);
            carry = c;
            i = i + 1;
        }
        proof {
            assert(src.take(src.len() as int) =~= src);
            assert(res@.push(carry).drop_last() =~= res@);
        }
        res.push(carry);
        self.limbs = res;
    }

    /// Whether this number is greater than `other`.
    pub fn greater(&self, other: &Natural) -> (r: bool)
        ensures
            r == (self@ > other@),
    {
        let a = &self.limbs;
        let b = &other.limbs;
        let n: usize = if a.len() > b.len() {
            a.len()
        } else {
            b.len()
        };
        proof {
            lemma_value_upto_past(a@, n as nat);
            lemma_value_upto_past(b@, n as nat);
        }
        let mut i: usize = n;
        while i > 0
            invariant
                n >= a.len(),
                n >= b.len(),
                i <= n,
                self@ == value_upto(a@, n as nat),
                other@ == value_upto(b@, n as nat),
                value_upto(a@, n as nat) - value_upto(a@, i as nat) == value_upto(b@, n as nat)
                    - value_upto(b@, i as nat),
            decreases i,
        {
            let k = i - 1;
            let x: u64 = if k < a.len() {
                a[k]
            } else {
                0
            };
            let y: u64 = if k < b.len() {
                b[k]
            } else {
                0
            };
            assert(x == limb_at(a@, k as int) && y == limb_at(b@, k as int));
            if x != y {
                proof {
                    let p = place(k as nat);
                    lemma_value_upto_bound(a@, k as nat);
                    lemma_value_upto_bound(b@, k as nat);
                    let va = value_upto(a@, k as nat);
                    let vb = value_upto(b@, k as nat);
                    assert(value_upto(a@, (k + 1) as nat) == va + x * p);
                    assert(value_upto(b@, (k + 1) as nat) == vb + y * p);
                    if x > y {
                        assert(va + x * p > vb + y * p) by (nonlinear_arith)
                            requires
                                x > y,
                                vb < p,
                        ;
                    } else {
                        assert(vb + y * p > va + x * p) by (nonlinear_arith)
                            requires
                                y > x,
                                va < p,
                        ;
                    }
                }
                return x > y;
            }
            i = k;
        }
        false
    }
}

} // verus!
