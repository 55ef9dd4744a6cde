use vstd::prelude::*;

verus! {

/// 256 to the power `n`.
pub open spec fn pow256(n: nat) -> nat
    decreases n,
{
    if n == 0 {
        1
    } else {
        256 * pow256((n - 1) as nat)
    }
}

/// The number that a big-endian byte string denotes.
pub open spec fn be_value(s: Seq<u8>) -> nat
    decreases s.len(),
{
    if s.len() == 0 {
        0
    } else {
        be_value(s.drop_last()) * 256 + s.last() as nat
    }
}

/// The `n` low bytes of `x`, most significant first.
pub open spec fn be_bytes(x: nat, n: nat) -> Seq<u8>
    decreases n,
{
    if n == 0 {
        Seq::empty()
    } else {
        be_bytes(x / 256, (n - 1) as nat).push((x % 256) as u8)
    }
}

pub open spec fn u16_be(x: u16) -> Seq<u8> {
    be_bytes(x as nat, 2)
}

pub open spec fn u32_be(x: u32) -> Seq<u8> {
    be_bytes(x as nat, 4)
}

pub open spec fn u64_be(x: u64) -> Seq<u8> {
    be_bytes(x as nat, 8)
}

/// The big-endian number held by `s[at..at + n]`.
pub open spec fn read_be(s: Seq<u8>, at: int, n: int) -> nat {
    be_value(s.subrange(at, at + n))
}

pub proof fn lemma_be_bytes_len(x: nat, n: nat)
    ensures
        be_bytes(x, n).len() == n,
    decreases n,
{
    if n > 0 {
        lemma_be_bytes_len(x / 256, (n - 1) as nat);
    }
}

pub proof fn lemma_pow256_positive(n: nat)
    ensures
        pow256(n) >= 1,
    decreases n,
{
    if n > 0 {
        lemma_pow256_positive((n - 1) as nat);
    }
}

/// Decoding the `n` bytes that encode `x` gives `x` back, when `x` fits in them.
pub proof fn lemma_be_round_trip(x: nat, n: nat)
    requires
        x < pow256(n),
    ensures
        be_value(be_bytes(x, n)) == x,
        be_bytes(x, n).len() == n,
    decreases n,
{
    lemma_be_bytes_len(x, n);
    if n > 0 {
        let p = pow256((n - 1) as nat);
        assert(x / 256 < p) by (nonlinear_arith)
            requires
                x < 256 * p,
        ;
        lemma_be_round_trip(x / 256, (n - 1) as nat);
        let b = be_bytes(x, n);
        assert(b.drop_last() =~= be_bytes(x / 256, (n - 1) as nat));
        assert(x == (x / 256) * 256 + x % 256) by (nonlinear_arith);
    } else {
        assert(x == 0);
    }
}

pub proof fn lemma_read_be_of(pre: Seq<u8>, x: nat, n: nat, post: Seq<u8>)
    requires
        x < pow256(n),
    ensures
        read_be(pre + be_bytes(x, n) + post, pre.len() as int, n as int) == x,
{
    lemma_be_round_trip(x, n);
    let s = pre + be_bytes(x, n) + post;
    assert(s.subrange(pre.len() as int, (pre.len() + n) as int) =~= be_bytes(x, n));
}

pub proof fn lemma_pow_values()
    ensures
        pow256(2) == 0x1_0000,
        pow256(4) == 0x1_0000_0000,
        pow256(7) == 0x100_0000_0000_0000,
        pow256(8) == 0x1_0000_0000_0000_0000,
{
    reveal_with_fuel(pow256, 9);
}

/// Appends `x` as two big-endian bytes.
pub fn put_u16(buf: &mut Vec<u8>, x: u16)
    ensures
        final(buf)@ == old(buf)@ + u16_be(x),
{
    proof {
        reveal_with_fuel(be_bytes, 3);
    }
    buf.push((x / 256) as u8);
    buf.push((x % 256) as u8);
    assert(final(buf)@ =~= old(buf)@ + u16_be(x));
}

/// Appends `x` as four big-endian bytes.
pub fn put_u32(buf: &mut Vec<u8>, x: u32)
    ensures
        final(buf)@ == old(buf)@ + u32_be(x),
{
    proof {
        reveal_with_fuel(be_bytes, 5);
    }
    buf.push((x / 0x100_0000) as u8);
    buf.push((x / 0x1_0000 % 256) as u8);
    buf.push((x / 256 % 256) as u8);
    buf.push((x % 256) as u8);
    assert(x as nat / 256 / 256 / 256 % 256 == x / 0x100_0000);
    assert(x as nat / 256 / 256 % 256 == x / 0x1_0000 % 256);
    assert(final(buf)@ =~= old(buf)@ + u32_be(x));
}

/// Appends `x` as eight big-endian bytes.
pub fn put_u64(buf: &mut Vec<u8>, x: u64)
    ensures
        final(buf)@ == old(buf)@ + u64_be(x),
{
    let ghost start = buf@;
    let mut tmp: Vec<u8> = Vec::new();
    let mut rest: u64 = x;
    let mut k: usize = 0;
    assert(pow256(0) == 1);
    assert(x as nat / 1 == x as nat);
    while k < 8
        invariant
            k <= 8,
            rest as nat == x as nat / pow256(k as nat),
            tmp@.len() == k,
            forall|j: int| 0 <= j < k ==> tmp@[j] == be_bytes(x as nat, 8)[7 - j],
        decreases 8 - k,
    {
        proof {
            lemma_be_digit(x as nat, 8, k as nat);
        }
        tmp.push((rest % 256) as u8);
        rest = rest / 256;
        k = k + 1;
    }
    proof {
        lemma_be_bytes_len(x as nat, 8);
    }
    let mut j: usize = 8;
    while j > 0
        invariant
            j <= 8,
            be_bytes(x as nat, 8).len() == 8,
            tmp@.len() == 8,
            forall|i: int| 0 <= i < 8 ==> tmp@[i] == be_bytes(x as nat, 8)[7 - i],
            buf@ == start + be_bytes(x as nat, 8).subrange(0, 8 - j as int),
        decreases j,
    {
        j = j - 1;
        buf.push(tmp[j]);
        assert(buf@ =~= start + be_bytes(x as nat, 8).subrange(0, 8 - j as int));
    }
    proof {
        lemma_be_bytes_len(x as nat, 8);
    }
    assert(be_bytes(x as nat, 8).subrange(0, 8) =~= be_bytes(x as nat, 8));
}

/// Byte `n - 1 - k` of `be_bytes(x, n)` is digit `k` of `x` in base 256.
pub proof fn lemma_be_digit(x: nat, n: nat, k: nat)
    requires
        k < n,
    ensures
        be_bytes(x, n).len() == n,
        be_bytes(x, n)[n - 1 - k] == (x / pow256(k) % 256) as u8,
        x / pow256(k) / 256 == x / pow256(k + 1),
    decreases n,
{
    lemma_be_bytes_len(x, n);
    lemma_pow256_positive(k);
    lemma_div_div(x, pow256(k));
    if k == 0 {
        assert(x / 1 == x);
    } else {
        lemma_be_digit(x / 256, (n - 1) as nat, (k - 1) as nat);
        lemma_div_div(x, 256);
        lemma_div_div(x / 256, pow256((k - 1) as nat));
        lemma_pow256_positive((k - 1) as nat);
        lemma_div_div_assoc(x, 256, pow256((k - 1) as nat));
    }
}

proof fn lemma_div_div(x: nat, p: nat)
    requires
        p >= 1,
    ensures
        x / p / 256 == x / (256 * p),
{
    lemma_div_div_assoc(x, p, 256);
    assert(p * 256 == 256 * p);
}

proof fn lemma_div_div_assoc(x: nat, a: nat, b: nat)
    requires
        a >= 1,
        b >= 1,
    ensures
        x / a / b == x / (a * b),
{
    vstd::arithmetic::div_mod::lemma_div_denominator(x as int, a as int, b as int);
}

/// Reads two big-endian bytes at `at`.
pub fn get_u16(s: &[u8], at: usize) -> (r: u16)
    requires
        at + 2 <= s@.len(),
    ensures
        r as nat == read_be(s@, at as int, 2),
{
    proof {
        reveal_with_fuel(be_value, 3);
        let t = s@.subrange(at as int, at + 2);
        assert(t.drop_last().drop_last() =~= Seq::<u8>::empty());
    }
    (s[at] as u16) * 256 + (s[at + 1] as u16)
}

/// Reads four big-endian bytes at `at`.
pub fn get_u32(s: &[u8], at: usize) -> (r: u32)
    requires
        at + 4 <= s@.len(),
    ensures
        r as nat == read_be(s@, at as int, 4),
{
    let r = get_be(s, at, 4);
    proof {
        lemma_pow_values();
    }
    r as u32
}

/// Reads eight big-endian bytes at `at`.
pub fn get_u64(s: &[u8], at: usize) -> (r: u64)
    requires
        at + 8 <= s@.len(),
    ensures
        r as nat == read_be(s@, at as int, 8),
{
    get_be(s, at, 8)
}

fn get_be(s: &[u8], at: usize, n: usize) -> (r: u64)
    requires
        n <= 8,
        at + n <= s@.len(),
    ensures
        r as nat == read_be(s@, at as int, n as int),
        r < pow256(n as nat),
{
    let mut acc: u64 = 0;
    let mut i: usize = 0;
    let len: usize = s.len();
    while i < n
        invariant
            i <= n <= 8,
            len == s@.len(),
            at + n <= s@.len(),
            acc as nat == read_be(s@, at as int, i as int),
            acc < pow256(i as nat),
        decreases n - i,
    {
        proof {
            lemma_pow_mono(i as nat, 7);
            lemma_pow_values();
            let t = s@.subrange(at as int, at + i + 1);
            assert(t.drop_last() =~= s@.subrange(at as int, at + i));
            assert(acc * 256 + s@[at + i] < pow256(i as nat) * 256) by (nonlinear_arith)
                requires
                    acc < pow256(i as nat),
                    s@[at + i] < 256,
            ;
            assert(pow256(i as nat) * 256 <= 0x1_0000_0000_0000_0000) by (nonlinear_arith)
                requires
                    pow256(i as nat) <= 0x100_0000_0000_0000,
            ;
        }
        let b: u8 = s[at + i];
        acc = acc * 256 + b as u64;
        i = i + 1;
    }
    acc
}

proof fn lemma_pow_mono(a: nat, b: nat)
    requires
        a <= b,
    ensures
        pow256(a) <= pow256(b),
    decreases b,
{
    if a < b {
        lemma_pow_mono(a, (b - 1) as nat);
    }
}

/// Appends the bytes of `s`.
pub fn put_slice(buf: &mut Vec<u8>, s: &[u8])
    ensures
        final(buf)@ == old(buf)@ + s@,
{
    let ghost start = buf@;
    let mut i: usize = 0;
    while i < s.len()
        invariant
            i <= s@.len(),
            buf@ == start + s@.subrange(0, i as int),
        decreases s@.len() - i,
    {
        buf.push(s[i]);
        i = i + 1;
        assert(buf@ =~= start + s@.subrange(0, i as int));
    }
    assert(s@.subrange(0, s@.len() as int) =~= s@);
}

/// Copies `s[from..to]` into a new vector.
pub fn copy_range(s: &[u8], from: usize, to: usize) -> (r: Vec<u8>)
    requires
        from <= to <= s@.len(),
    ensures
        r@ == s@.subrange(from as int, to as int),
{
    let mut r: Vec<u8> = Vec::new();
    let mut i: usize = from;
    while i < to
        invariant
            from <= i <= to <= s@.len(),
            r@ == s@.subrange(from as int, i as int),
        decreases to - i,
    {
        r.push(s[i]);
        i = i + 1;
        assert(r@ =~= s@.subrange(from as int, i as int));
    }
    r
}

} // verus!
