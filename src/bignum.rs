//! Natural numbers of any size, as little-endian lists of 32-bit limbs,
//! enough to compare sums of fractions exactly.
use vstd::prelude::*;

verus! {

pub const LIMB: u64 = 4294967296;

/// `LIMB` to the power `n`.
pub open spec fn limb_pow(n: nat) -> nat
    decreases n,
{
    if n == 0 {
        1
    } else {
        (LIMB * limb_pow((n - 1) as nat)) as nat
    }
}

/// The number that a list of limbs denotes, least significant first.
pub open spec fn big_val(s: Seq<u32>) -> nat
    decreases s.len(),
{
    if s.len() == 0 {
        0
    } else {
        (big_val(s.drop_last()) + s.last() * limb_pow((s.len() - 1) as nat)) as nat
    }
}

proof fn lemma_big_val_bound(s: Seq<u32>)
    ensures
        big_val(s) < limb_pow(s.len()),
    decreases s.len(),
{
    if s.len() > 0 {
        let n = (s.len() - 1) as nat;
        lemma_big_val_bound(s.drop_last());
        let p = limb_pow(n);
        let l = s.last() as int;
        assert(big_val(s.drop_last()) + l * p < LIMB * p) by (nonlinear_arith)
            requires big_val(s.drop_last()) < p, 0 <= l < LIMB;
    }
}

/// A number of one limb per 32 bits of `x`.
pub fn big_from(x: u64) -> (r: Vec<u32>)
    ensures
        big_val(r@) == x,
{
    let lo = (x % LIMB) as u32;
    let hi = (x / LIMB) as u32;
    let mut r: Vec<u32> = Vec::new();
    r.push(lo);
    r.push(hi);
    proof {
        assert(r@.drop_last() =~= seq![lo]);
        assert(seq![lo].drop_last() =~= Seq::<u32>::empty());
        assert(big_val(Seq::<u32>::empty()) == 0);
        assert(limb_pow(0) == 1);
        assert(limb_pow(1) == LIMB * limb_pow(0));
        assert(big_val(seq![lo]) == lo);
        assert(big_val(r@) == lo + hi * LIMB);
        assert(x == (x % LIMB) + (x / LIMB) * LIMB) by (nonlinear_arith);
    }
    r
}

/// `a * k`.
pub fn big_mul_small(a: &Vec<u32>, k: u64) -> (r: Vec<u32>)
    ensures
        big_val(r@) == big_val(a@) * k,
{
    let mut r: Vec<u32> = Vec::new();
    let mut carry: u128 = 0;
    let mut i: usize = 0;
    assert(a@.take(0) =~= Seq::<u32>::empty());
    assert(0 * (k as int) == 0);
    while i < a.len()
        invariant
            i <= a.len(),
            r.len() == i,
            carry < 0x1_0000_0000_0000_0000,
            big_val(r@) + carry * limb_pow(i as nat) == big_val(a@.take(i as int)) * k,
        decreases a.len() - i,
    {
        assert((a[i as int] as int) * (k as int) <= 0xffff_ffff * 0xffff_ffff_ffff_ffff) by (nonlinear_arith)
            requires a[i as int] <= 0xffff_ffff, k <= 0xffff_ffff_ffff_ffff;
        let t: u128 = (a[i] as u128) * (k as u128) + carry;
        let lo = (t % (LIMB as u128)) as u32;
        let ghost old_r = r@;
        r.push(lo);
        proof {
            let p = limb_pow(i as nat);
            let c2 = t / (LIMB as u128);
            assert(r@.drop_last() =~= old_r);
            assert(a@.take(i as int + 1).drop_last() =~= a@.take(i as int));
            assert(limb_pow((i + 1) as nat) == LIMB * p);
            assert(t == lo + c2 * LIMB) by (nonlinear_arith)
                requires lo == t % (LIMB as u128), c2 == t / (LIMB as u128);
            assert(big_val(r@) + c2 * (LIMB * p) == big_val(a@.take(i as int + 1)) * k) by (nonlinear_arith)
                requires
                    big_val(r@) == big_val(old_r) + lo * p,
                    big_val(old_r) + carry * p == big_val(a@.take(i as int)) * k,
                    big_val(a@.take(i as int + 1)) == big_val(a@.take(i as int)) + a[i as int] * p,
                    t == lo + c2 * LIMB,
                    t == a[i as int] * k + carry;
        }
        carry = t / (LIMB as u128);
        i = i + 1;
    }
    assert(a@.take(a.len() as int) =~= a@);
    let c = carry as u64;
    let top = big_from(c);
    let shifted = big_shift(&top, r.len());
    proof {
        assert(big_val(shifted@) == carry * limb_pow(r.len() as nat));
    }
    big_add(&r, &shifted)
}

/// `a` shifted up by `n` limbs: `a * LIMB^n`.
fn big_shift(a: &Vec<u32>, n: usize) -> (r: Vec<u32>)
    ensures
        big_val(r@) == big_val(a@) * limb_pow(n as nat),
        r.len() == n + a.len(),
{
    let mut r: Vec<u32> = Vec::new();
    let mut i: usize = 0;
    while i < n
        invariant
            i <= n,
            r.len() == i,
            forall|j: int| 0 <= j < i ==> r@[j] == 0,
            big_val(r@) == 0,
        decreases n - i,
    {
        let ghost old_r = r@;
        r.push(0);
        assert(r@.drop_last() =~= old_r);
        assert(0 * limb_pow(i as nat) == 0);
        i = i + 1;
    }
    assert(a@.take(0) =~= Seq::<u32>::empty());
    assert(0 * limb_pow(n as nat) == 0);
    let mut j: usize = 0;
    while j < a.len()
        invariant
            j <= a.len(),
            r.len() == n + j,
            big_val(r@) == big_val(a@.take(j as int)) * limb_pow(n as nat),
        decreases a.len() - j,
    {
        let ghost old_r = r@;
        r.push(a[j]);
        proof {
            assert(r@.drop_last() =~= old_r);
            assert(a@.take(j as int + 1).drop_last() =~= a@.take(j as int));
            lemma_limb_pow_add(n as nat, j as nat);
            let aa: int = big_val(a@.take(j as int)) as int;
            let x: int = a[j as int] as int;
            let pp: int = limb_pow(n as nat) as int;
            let qq: int = limb_pow(j as nat) as int;
            assert((aa + x * qq) * pp == aa * pp + x * (pp * qq)) by (nonlinear_arith);
            assert(big_val(r@) == big_val(old_r) + x * limb_pow((n + j) as nat));
            assert(big_val(a@.take(j as int + 1)) == aa + x * qq);
        }
        j = j + 1;
    }
    assert(a@.take(a.len() as int) =~= a@);
    r
}

proof fn lemma_limb_pow_add(m: nat, n: nat)
    ensures
        limb_pow(m + n) == limb_pow(m) * limb_pow(n),
    decreases n,
{
    if n > 0 {
        lemma_limb_pow_add(m, (n - 1) as nat);
        assert((m + n - 1) as nat == m + (n - 1) as nat);
        assert(limb_pow(m + n) == LIMB * limb_pow((m + n - 1) as nat));
        assert(limb_pow(n) == LIMB * limb_pow((n - 1) as nat));
        assert(LIMB * (limb_pow(m) * limb_pow((n - 1) as nat)) == limb_pow(m) * (LIMB * limb_pow((n - 1) as nat))) by (nonlinear_arith);
    } else {
        assert(m + n == m);
        assert(limb_pow(0) == 1);
        assert(limb_pow(m) * 1 == limb_pow(m));
    }
}

/// The limb of `a` at `i`, zero past its end.
fn limb_at(a: &Vec<u32>, i: usize) -> (r: u32)
    ensures
        r == (if i < a.len() { a@[i as int] } else { 0 }),
{
    if i < a.len() {
        a[i]
    } else {
        0
    }
}

/// The number `a` with zero limbs appended up to length `n`.
pub open spec fn padded(a: Seq<u32>, n: nat) -> Seq<u32> {
    Seq::new(n, |i: int| if i < a.len() { a[i] } else { 0u32 })
}

proof fn lemma_padded_val(a: Seq<u32>, n: nat)
    requires
        a.len() <= n,
    ensures
        big_val(padded(a, n)) == big_val(a),
    decreases n,
{
    if n == a.len() {
        assert(padded(a, n) =~= a);
    } else {
        lemma_padded_val(a, (n - 1) as nat);
        assert(padded(a, n).drop_last() =~= padded(a, (n - 1) as nat));
        assert(padded(a, n).last() == 0);
        assert(0 * limb_pow((n - 1) as nat) == 0);
    }
}

/// `a + b`.
pub fn big_add(a: &Vec<u32>, b: &Vec<u32>) -> (r: Vec<u32>)
    ensures
        big_val(r@) == big_val(a@) + big_val(b@),
{
    let n = if a.len() < b.len() { b.len() } else { a.len() };
    let ghost pa = padded(a@, n as nat);
    let ghost pb = padded(b@, n as nat);
    let mut r: Vec<u32> = Vec::new();
    let mut carry: u64 = 0;
    let mut i: usize = 0;
    while i < n
        invariant
            i <= n,
            n >= a.len(),
            n >= b.len(),
            pa == padded(a@, n as nat),
            pb == padded(b@, n as nat),
            r.len() == i,
            carry <= 1,
            big_val(r@) + carry * limb_pow(i as nat) == big_val(pa.take(i as int)) + big_val(pb.take(i as int)),
        decreases n - i,
    {
        let x = limb_at(a, i);
        let y = limb_at(b, i);
        assert(x == pa[i as int] && y == pb[i as int]);
        let t: u64 = x as u64 + y as u64 + carry;
        let lo = (t % LIMB) as u32;
        let ghost old_r = r@;
        r.push(lo);
        proof {
            let p = limb_pow(i as nat);
            let c2 = t / LIMB;
            assert(r@.drop_last() =~= old_r);
            assert(pa.take(i as int + 1).drop_last() =~= pa.take(i as int));
            assert(pb.take(i as int + 1).drop_last() =~= pb.take(i as int));
            assert(limb_pow((i + 1) as nat) == LIMB * p);
            assert(t == lo + c2 * LIMB) by (nonlinear_arith)
                requires lo == t % LIMB, c2 == t / LIMB;
            assert(big_val(r@) + c2 * (LIMB * p) == big_val(pa.take(i as int + 1)) + big_val(pb.take(i as int + 1))) by (nonlinear_arith)
                requires
                    big_val(r@) == big_val(old_r) + lo * p,
                    big_val(old_r) + carry * p == big_val(pa.take(i as int)) + big_val(pb.take(i as int)),
                    big_val(pa.take(i as int + 1)) == big_val(pa.take(i as int)) + x * p,
                    big_val(pb.take(i as int + 1)) == big_val(pb.take(i as int)) + y * p,
                    t == lo + c2 * LIMB,
                    t == x + y + carry;
        }
        carry = t / LIMB;
        i = i + 1;
    }
    proof {
        assert(pa.take(n as int) =~= pa);
        assert(pb.take(n as int) =~= pb);
        lemma_padded_val(a@, n as nat);
        lemma_padded_val(b@, n as nat);
    }
    let ghost old_r = r@;
    r.push(carry as u32);
    assert(r@.drop_last() =~= old_r);
    r
}

proof fn lemma_high_equal(a: Seq<u32>, b: Seq<u32>, j: int)
    requires
        a.len() == b.len(),
        0 <= j <= a.len(),
        forall|i: int| j <= i < a.len() ==> a[i] == b[i],
    ensures
        big_val(a) - big_val(a.take(j)) == big_val(b) - big_val(b.take(j)),
    decreases a.len(),
{
    if a.len() == j {
        assert(a.take(j) =~= a);
        assert(b.take(j) =~= b);
    } else {
        assert(a.drop_last().take(j) =~= a.take(j));
        assert(b.drop_last().take(j) =~= b.take(j));
        lemma_high_equal(a.drop_last(), b.drop_last(), j);
    }
}

/// Whether `a < b`.
pub fn big_lt(a: &Vec<u32>, b: &Vec<u32>) -> (r: bool)
    ensures
        r == (big_val(a@) < big_val(b@)),
{
    let n = if a.len() < b.len() { b.len() } else { a.len() };
    let ghost pa = padded(a@, n as nat);
    let ghost pb = padded(b@, n as nat);
    proof {
        lemma_padded_val(a@, n as nat);
        lemma_padded_val(b@, n as nat);
    }
    let mut j: usize = n;
    while j > 0
        invariant
            j <= n,
            n >= a.len(),
            n >= b.len(),
            pa == padded(a@, n as nat),
            pb == padded(b@, n as nat),
            big_val(pa) == big_val(a@),
            big_val(pb) == big_val(b@),
            forall|i: int| j <= i < n ==> pa[i] == pb[i],
        decreases j,
    {
        let x = limb_at(a, j - 1);
        let y = limb_at(b, j - 1);
        assert(x == pa[j - 1] && y == pb[j - 1]);
        if x != y {
            proof {
                let k = j - 1;
                lemma_high_equal(pa, pb, j as int);
                lemma_big_val_bound(pa.take(k as int));
                lemma_big_val_bound(pb.take(k as int));
                assert(pa.take(j as int).drop_last() =~= pa.take(k as int));
                assert(pb.take(j as int).drop_last() =~= pb.take(k as int));
                let p = limb_pow(k as nat);
                assert(big_val(pa.take(j as int)) == big_val(pa.take(k as int)) + x * p);
                assert(big_val(pb.take(j as int)) == big_val(pb.take(k as int)) + y * p);
                if x < y {
                    assert(big_val(pa.take(k as int)) + x * p < big_val(pb.take(k as int)) + y * p) by (nonlinear_arith)
                        requires big_val(pa.take(k as int)) < p, x + 1 <= y;
                } else {
                    assert(big_val(pb.take(k as int)) + y * p < big_val(pa.take(k as int)) + x * p) by (nonlinear_arith)
                        requires big_val(pb.take(k as int)) < p, y + 1 <= x;
                }
            }
            return x < y;
        }
        j = j - 1;
    }
    proof {
        lemma_high_equal(pa, pb, 0);
        assert(pa.take(0) =~= Seq::<u32>::empty());
        assert(pb.take(0) =~= Seq::<u32>::empty());
    }
    false
}

} // verus!
