//! Natural numbers of any size, as little-endian vectors of 64-bit limbs.
use vstd::prelude::*;
use vstd::arithmetic::power::{lemma_pow_adds, lemma_pow_positive, pow};

verus! {

pub open spec fn limb_base() -> int {
    0x1_0000_0000_0000_0000
}

/// The value of little-endian limbs.
pub open spec fn val(s: Seq<u64>) -> int
    decreases s.len(),
{
    if s.len() == 0 {
        0
    } else {
        val(s.drop_last()) + s.last() * pow(limb_base(), (s.len() - 1) as nat)
    }
}

/// No zero limb at the top.
pub open spec fn normal(s: Seq<u64>) -> bool {
    s.len() == 0 || s.last() != 0
}

proof fn lemma_val_push(s: Seq<u64>, x: u64)
    ensures
        val(s.push(x)) == val(s) + x * pow(limb_base(), s.len()),
{
    assert(s.push(x).drop_last() =~= s);
}

proof fn lemma_val_single(s: Seq<u64>, x: u64)
    requires
        s =~= Seq::<u64>::empty().push(x),
    ensures
        val(s) == x,
{
    let e = Seq::<u64>::empty();
    lemma_val_push(e, x);
    assert(val(e) == 0);
    vstd::arithmetic::power::lemma_pow0(limb_base());
    assert(s == e.push(x));
}

proof fn lemma_val_bound(s: Seq<u64>)
    ensures
        0 <= val(s) < pow(limb_base(), s.len()),
    decreases s.len(),
{
    reveal(pow);
    if s.len() > 0 {
        let e = (s.len() - 1) as nat;
        lemma_val_bound(s.drop_last());
        let p = pow(limb_base(), e);
        lemma_pow_positive(limb_base(), e);
        assert(pow(limb_base(), s.len()) == limb_base() * p);
        assert(0 <= val(s.drop_last()) + s.last() * p < limb_base() * p) by (nonlinear_arith)
            requires
                0 <= val(s.drop_last()) < p,
                0 <= s.last() < limb_base(),
                p > 0,
        ;
    }
}

proof fn lemma_val_lower(s: Seq<u64>)
    requires
        s.len() > 0,
    ensures
        val(s) >= s.last() * pow(limb_base(), (s.len() - 1) as nat),
{
    lemma_val_bound(s.drop_last());
}

/// Splitting the limbs at `i` splits the value.
proof fn lemma_val_split(s: Seq<u64>, i: int)
    requires
        0 <= i <= s.len(),
    ensures
        val(s) == val(s.take(i)) + pow(limb_base(), i as nat) * val(s.skip(i)),
    decreases s.len(),
{
    reveal(pow);
    if i == s.len() {
        assert(s.take(i) =~= s);
        assert(s.skip(i).len() == 0);
    } else {
        let t = s.drop_last();
        let x = s.last();
        lemma_val_split(t, i);
        assert(s.take(i) =~= t.take(i));
        assert(s.skip(i) =~= t.skip(i).push(x));
        lemma_val_push(t.skip(i), x);
        let e = (t.len() - i) as nat;
        lemma_pow_adds(limb_base(), i as nat, e);
        let (pi, pe) = (pow(limb_base(), i as nat), pow(limb_base(), e));
        assert(pi * (val(t.skip(i)) + x * pe) == pi * val(t.skip(i)) + x * (pi * pe)) by (nonlinear_arith);
    }
}

proof fn lemma_val_take_push(s: Seq<u64>, i: int)
    requires
        0 <= i < s.len(),
    ensures
        val(s.take(i + 1)) == val(s.take(i)) + s[i] * pow(limb_base(), i as nat),
{
    assert(s.take(i + 1) =~= s.take(i).push(s[i]));
    lemma_val_push(s.take(i), s[i]);
}

/// Drops zero limbs from the top; the value stays.
pub fn trim(s: &mut Vec<u64>)
    ensures
        val(final(s)@) == val(old(s)@),
        normal(final(s)@),
{
    while s.len() > 0 && s[s.len() - 1] == 0
        invariant
            val(s@) == val(old(s)@),
        decreases s@.len(),
    {
        let ghost before = s@;
        assert(before.last() == 0);
        s.pop();
        proof {
            assert(before =~= s@.push(0u64));
            lemma_val_push(s@, 0);
            assert(0 * pow(limb_base(), s@.len()) == 0);
        }
    }
}

pub fn from_u64(x: u64) -> (r: Vec<u64>)
    ensures
        val(r@) == x,
        normal(r@),
{
    let mut r: Vec<u64> = Vec::new();
    r.push(x);
    proof {
        reveal(pow);
        lemma_val_push(Seq::empty(), x);
        assert(r@ =~= Seq::<u64>::empty().push(x));
    }
    trim(&mut r);
    r
}

/// `a * m`.
pub fn mul_small(a: &Vec<u64>, m: u64) -> (r: Vec<u64>)
    ensures
        val(r@) == val(a@) * m,
        normal(r@),
{
    let mut r: Vec<u64> = Vec::new();
    let mut carry: u64 = 0;
    let mut i: usize = 0;
    proof {
        assert(a@.take(0) =~= Seq::<u64>::empty());
        reveal(pow);
    }
    while i < a.len()
        invariant
            i <= a@.len(),
            r@.len() == i,
            val(r@) + carry * pow(limb_base(), i as nat) == val(a@.take(i as int)) * m,
        decreases a@.len() - i,
    {
        proof {
            assert((a[i as int] as int) * (m as int) <= 0xffff_ffff_ffff_ffff * 0xffff_ffff_ffff_ffff) by (nonlinear_arith)
                requires
                    0 <= a[i as int] <= 0xffff_ffff_ffff_ffff,
                    0 <= m <= 0xffff_ffff_ffff_ffff,
            ;
        }
        let t: u128 = (a[i] as u128) * (m as u128) + (carry as u128);
        let low: u64 = (t % 0x1_0000_0000_0000_0000) as u64;
        let high: u64 = (t / 0x1_0000_0000_0000_0000) as u64;
        proof {
            let p = pow(limb_base(), i as nat);
            lemma_val_push(r@, low);
            lemma_val_take_push(a@, i as int);
            reveal(pow);
            assert(pow(limb_base(), (i + 1) as nat) == limb_base() * p);
            assert(t == low + high * limb_base());
            assert(low * p + high * (limb_base() * p) == t * p) by (nonlinear_arith)
                requires
                    t == low + high * limb_base(),
            ;
            assert(val(a@.take(i as int)) * m + a[i as int] * p * m == (val(a@.take(i as int)) + a[i as int] * p) * m) by (nonlinear_arith);
            assert(t * p == a[i as int] * p * m + carry * p) by (nonlinear_arith)
                requires
                    t == a[i as int] * m + carry,
            ;
        }
        r.push(low);
        carry = high;
        i += 1;
    }
    proof {
        assert(a@.take(a@.len() as int) =~= a@);
        lemma_val_push(r@, carry);
    }
    r.push(carry);
    trim(&mut r);
    r
}

pub open spec fn limb_or_zero(s: Seq<u64>, i: int) -> u64 {
    if 0 <= i < s.len() { s[i] } else { 0 }
}

pub open spec fn prefix(s: Seq<u64>, i: int) -> Seq<u64> {
    if i <= s.len() { s.take(i) } else { s }
}

proof fn lemma_prefix_step(s: Seq<u64>, i: int)
    requires
        0 <= i,
    ensures
        val(prefix(s, i + 1)) == val(prefix(s, i)) + limb_or_zero(s, i) * pow(limb_base(), i as nat),
{
    if i < s.len() {
        lemma_val_take_push(s, i);
    } else {
        assert(limb_or_zero(s, i) == 0);
        assert(0 * pow(limb_base(), i as nat) == 0);
        if i == s.len() {
            assert(s.take(i) =~= s);
        }
    }
}

/// `a + b`.
pub fn add_big(a: &Vec<u64>, b: &Vec<u64>) -> (r: Vec<u64>)
    ensures
        val(r@) == val(a@) + val(b@),
        normal(r@),
{
    let n: usize = if a.len() > b.len() { a.len() } else { b.len() };
    let mut r: Vec<u64> = Vec::new();
    let mut carry: u64 = 0;
    let mut i: usize = 0;
    proof {
        assert(prefix(a@, 0) =~= Seq::<u64>::empty());
        assert(prefix(b@, 0) =~= Seq::<u64>::empty());
        reveal(pow);
    }
    while i < n
        invariant
            n == (if a@.len() > b@.len() { a@.len() } else { b@.len() }),
            i <= n,
            r@.len() == i,
            carry <= 1,
            val(r@) + carry * pow(limb_base(), i as nat) == val(prefix(a@, i as int)) + val(prefix(b@, i as int)),
        decreases n - i,
    {
        let x: u64 = if i < a.len() { a[i] } else { 0 };
        let y: u64 = if i < b.len() { b[i] } else { 0 };
        let t: u128 = (x as u128) + (y as u128) + (carry as u128);
        let low: u64 = (t % 0x1_0000_0000_0000_0000) as u64;
        let high: u64 = (t / 0x1_0000_0000_0000_0000) as u64;
        proof {
            let p = pow(limb_base(), i as nat);
            lemma_val_push(r@, low);
            lemma_prefix_step(a@, i as int);
            lemma_prefix_step(b@, i as int);
            reveal(pow);
            assert(pow(limb_base(), (i + 1) as nat) == limb_base() * p);
            assert(x == limb_or_zero(a@, i as int) && y == limb_or_zero(b@, i as int));
            assert(t == low + high * limb_base());
            assert(low * p + high * (limb_base() * p) == t * p) by (nonlinear_arith)
                requires
                    t == low + high * limb_base(),
            ;
            assert(t * p == x * p + y * p + carry * p) by (nonlinear_arith)
                requires
                    t == x + y + carry,
            ;
        }
        r.push(low);
        carry = high;
        i += 1;
    }
    proof {
        assert(prefix(a@, n as int) =~= a@);
        assert(prefix(b@, n as int) =~= b@);
        lemma_val_push(r@, carry);
    }
    r.push(carry);
    trim(&mut r);
    r
}

/// `a / d` and `a % d`.
pub fn div_small(a: &Vec<u64>, d: u64) -> (r: (Vec<u64>, u64))
    requires
        d > 0,
    ensures
        val(r.0@) * d + r.1 == val(a@),
        r.1 < d,
        normal(r.0@),
{
    let n = a.len();
    let mut q: Vec<u64> = Vec::new();
    let mut k: usize = 0;
    while k < n
        invariant
            k <= n,
            q@.len() == k,
        decreases n - k,
    {
        q.push(0);
        k += 1;
    }
    let mut rem: u64 = 0;
    let mut i: usize = n;
    proof {
        assert(a@.skip(n as int) =~= Seq::<u64>::empty());
        assert(q@.skip(n as int) =~= Seq::<u64>::empty());
    }
    while i > 0
        invariant
            n == a@.len(),
            q@.len() == n,
            i <= n,
            rem < d,
            val(a@.skip(i as int)) == d * val(q@.skip(i as int)) + rem,
        decreases i,
    {
        let t: u128 = (rem as u128) * 0x1_0000_0000_0000_0000 + (a[i - 1] as u128);
        proof {
            assert((rem as int) * limb_base() + a[i - 1] <= (d - 1) * limb_base() + 0xffff_ffff_ffff_ffff) by (nonlinear_arith)
                requires
                    rem <= d - 1,
                    a[i - 1] <= 0xffff_ffff_ffff_ffff,
            ;
            assert((d - 1) * limb_base() + 0xffff_ffff_ffff_ffff < 0xffff_ffff_ffff_ffff * limb_base() + limb_base()) by (nonlinear_arith)
                requires
                    d <= 0xffff_ffff_ffff_ffff,
            ;
        }
        let digit: u128 = t / (d as u128);
        let rest: u128 = t % (d as u128);
        proof {
            vstd::arithmetic::div_mod::lemma_fundamental_div_mod(t as int, d as int);
            assert(t < d * limb_base()) by (nonlinear_arith)
                requires
                    t < (rem + 1) * limb_base(),
                    rem + 1 <= d,
            ;
            assert(digit < limb_base()) by (nonlinear_arith)
                requires
                    t == d * digit + rest,
                    rest >= 0,
                    t < d * limb_base(),
                    d > 0,
            ;
        }
        let ghost old_q = q@;
        q.set(i - 1, digit as u64);
        proof {
            let j = (i - 1) as int;
            let sa = a@.skip(j);
            let sq = q@.skip(j);
            lemma_val_split(sa, 1);
            lemma_val_split(sq, 1);
            assert(sa.skip(1) =~= a@.skip(i as int));
            assert(sq.skip(1) =~= old_q.skip(i as int));
            lemma_val_single(sa.take(1), a@[j]);
            lemma_val_single(sq.take(1), digit as u64);
            vstd::arithmetic::div_mod::lemma_fundamental_div_mod(t as int, d as int);
            vstd::arithmetic::power::lemma_pow1(limb_base());
            vstd::arithmetic::power::lemma_pow0(limb_base());
            let vq = val(old_q.skip(i as int));
            assert(val(sa) == a@[j] + limb_base() * val(a@.skip(i as int)));
            assert(val(sq) == digit + limb_base() * vq);
            assert(a@[j] + limb_base() * (d * vq + rem) == d * (digit + limb_base() * vq) + rest) by (nonlinear_arith)
                requires
                    t == rem * limb_base() + a@[j],
                    t == d * digit + rest,
            ;
        }
        rem = rest as u64;
        i -= 1;
    }
    proof {
        assert(a@.skip(0) =~= a@);
        assert(q@.skip(0) =~= q@);
        assert(d * val(q@) == val(q@) * d) by (nonlinear_arith);
    }
    trim(&mut q);
    (q, rem)
}

/// `val(a) <= val(b)`.
pub fn le(a: &Vec<u64>, b: &Vec<u64>) -> (r: bool)
    requires
        normal(a@),
        normal(b@),
    ensures
        r == (val(a@) <= val(b@)),
{
    proof {
        lemma_val_bound(a@);
        lemma_val_bound(b@);
    }
    if a.len() != b.len() {
        proof {
            let (la, lb) = (a@.len(), b@.len());
            if la < lb {
                lemma_val_lower(b@);
                vstd::arithmetic::power::lemma_pow_increases(limb_base() as nat, la as nat, (lb - 1) as nat);
                assert(val(b@) >= pow(limb_base(), (lb - 1) as nat)) by (nonlinear_arith)
                    requires
                        val(b@) >= b@.last() * pow(limb_base(), (lb - 1) as nat),
                        b@.last() >= 1,
                        pow(limb_base(), (lb - 1) as nat) >= 0,
                ;
            } else {
                lemma_val_lower(a@);
                vstd::arithmetic::power::lemma_pow_increases(limb_base() as nat, lb as nat, (la - 1) as nat);
                assert(val(a@) >= pow(limb_base(), (la - 1) as nat)) by (nonlinear_arith)
                    requires
                        val(a@) >= a@.last() * pow(limb_base(), (la - 1) as nat),
                        a@.last() >= 1,
                        pow(limb_base(), (la - 1) as nat) >= 0,
                ;
            }
        }
        return a.len() < b.len();
    }
    let mut i: usize = a.len();
    while i > 0
        invariant
            a@.len() == b@.len(),
            i <= a@.len(),
            a@.skip(i as int) == b@.skip(i as int),
        decreases i,
    {
        let j = i - 1;
        if a[j] != b[j] {
            proof {
                let p = pow(limb_base(), j as nat);
                lemma_val_split(a@, j as int);
                lemma_val_split(b@, j as int);
                lemma_val_split(a@.skip(j as int), 1);
                lemma_val_split(b@.skip(j as int), 1);
                assert(a@.skip(j as int).skip(1) =~= a@.skip(i as int));
                assert(b@.skip(j as int).skip(1) =~= b@.skip(i as int));
                lemma_val_single(a@.skip(j as int).take(1), a@[j as int]);
                lemma_val_single(b@.skip(j as int).take(1), b@[j as int]);
                vstd::arithmetic::power::lemma_pow1(limb_base());
                lemma_val_bound(a@.take(j as int));
                lemma_val_bound(b@.take(j as int));
                let h = val(a@.skip(i as int));
                let (x, y) = (a@[j as int] as int, b@[j as int] as int);
                let (la, lb) = (val(a@.take(j as int)) as int, val(b@.take(j as int)) as int);
                if x < y {
                    assert(la + p * (x + limb_base() * h) < lb + p * (y + limb_base() * h)) by (nonlinear_arith)
                        requires
                            x + 1 <= y,
                            0 <= la < p,
                            0 <= lb,
                    ;
                } else {
                    assert(lb + p * (y + limb_base() * h) < la + p * (x + limb_base() * h)) by (nonlinear_arith)
                        requires
                            y + 1 <= x,
                            0 <= lb < p,
                            0 <= la,
                    ;
                }
            }
            return a[j] < b[j];
        }
        proof {
            assert(a@.skip(j as int) =~= seq![a@[j as int]] + a@.skip(i as int));
            assert(b@.skip(j as int) =~= seq![b@[j as int]] + b@.skip(i as int));
        }
        i = j;
    }
    proof {
        assert(a@ =~= a@.skip(0));
        assert(b@ =~= b@.skip(0));
    }
    true
}

} // verus!
