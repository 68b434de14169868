//! Integers as bytes.

use vstd::prelude::*;

verus! {

/// Which byte of an integer comes first.
#[derive(Debug, Clone, Copy, PartialEq, Eq, Structural)]
pub enum ByteOrder {
    /// The least significant one.
    Little,
    /// The most significant one.
    Big,
}

/// 256 to the power of `n`.
pub open spec fn pow256(n: nat) -> nat
    decreases n,
{
    if n == 0 {
        1
    } else {
        256 * pow256((n - 1) as nat)
    }
}

/// The `n` low bytes of `v`, the least significant one first.
pub open spec fn low_bytes(v: nat, n: nat) -> Seq<u8>
    decreases n,
{
    if n == 0 {
        Seq::empty()
    } else {
        seq![(v % 256) as u8] + low_bytes(v / 256, (n - 1) as nat)
    }
}

/// The integer whose bytes are `s`, the least significant one first.
pub open spec fn low_value(s: Seq<u8>) -> nat
    decreases s.len(),
{
    if s.len() == 0 {
        0
    } else {
        s[0] as nat + 256 * low_value(s.drop_first())
    }
}

/// An integer below 256 to the power of `n` in `n` bytes.
pub open spec fn encoded(v: nat, n: nat, order: ByteOrder) -> Seq<u8> {
    match order {
        ByteOrder::Little => low_bytes(v, n),
        ByteOrder::Big => low_bytes(v, n).reverse(),
    }
}

/// The integer that bytes stand for.
pub open spec fn decoded(s: Seq<u8>, order: ByteOrder) -> nat {
    match order {
        ByteOrder::Little => low_value(s),
        ByteOrder::Big => low_value(s.reverse()),
    }
}

pub proof fn lemma_pow256(n: nat)
    ensures
        pow256(n) > 0,
        n == 1 ==> pow256(n) == 0x100,
        n == 4 ==> pow256(n) == 0x1_0000_0000,
        n == 8 ==> pow256(n) == 0x1_0000_0000_0000_0000,
        n == 16 ==> pow256(n) == 0x1_0000_0000_0000_0000_0000_0000_0000_0000,
    decreases n,
{
    if n > 0 {
        lemma_pow256((n - 1) as nat);
    }
    reveal_with_fuel(pow256, 17);
}

pub proof fn lemma_pow256_grows(n: nat, m: nat)
    requires
        n <= m,
    ensures
        pow256(n) <= pow256(m),
    decreases m,
{
    if n < m {
        lemma_pow256_grows(n, (m - 1) as nat);
        lemma_pow256((m - 1) as nat);
    }
}

proof fn lemma_low_bytes(v: nat, n: nat)
    requires
        v < pow256(n),
    ensures
        low_bytes(v, n).len() == n,
        low_value(low_bytes(v, n)) == v,
    decreases n,
{
    if n > 0 {
        lemma_low_bytes(v / 256, (n - 1) as nat);
        let s = low_bytes(v, n);
        assert(s.drop_first() == low_bytes(v / 256, (n - 1) as nat));
        assert(s[0] as nat == v % 256);
    }
}

proof fn lemma_low_value(s: Seq<u8>)
    ensures
        low_value(s) < pow256(s.len()),
        low_bytes(low_value(s), s.len()) == s,
    decreases s.len(),
{
    if s.len() > 0 {
        lemma_low_value(s.drop_first());
        let v = low_value(s);
        let rest = low_value(s.drop_first());
        assert(v == s[0] + 256 * rest);
        assert(v / 256 == rest && v % 256 == s[0]);
        assert(low_bytes(v, s.len()) == s);
    } else {
        assert(low_bytes(0, 0) == s);
    }
}

/// What an integer is written as is read as that integer.
pub proof fn law_bytes_read_back(v: nat, n: nat, order: ByteOrder)
    requires
        v < pow256(n),
    ensures
        encoded(v, n, order).len() == n,
        decoded(encoded(v, n, order), order) == v,
{
    lemma_low_bytes(v, n);
    let s = low_bytes(v, n);
    assert(s.reverse().reverse() == s);
}

/// What bytes are read as is written as those bytes.
pub proof fn law_bytes_write_back(s: Seq<u8>, order: ByteOrder)
    ensures
        decoded(s, order) < pow256(s.len()),
        encoded(decoded(s, order), s.len(), order) == s,
{
    lemma_low_value(s);
    lemma_low_value(s.reverse());
    assert(s.reverse().reverse() == s);
}

/// Appends an integer as `n` bytes.
pub fn push_uint(out: &mut Vec<u8>, v: u128, n: usize, order: ByteOrder)
    requires
        v < pow256(n as nat),
        n <= 16,
    ensures
        final(out)@ == old(out)@ + encoded(v as nat, n as nat, order),
{
    let mut low: Vec<u8> = Vec::new();
    let mut rest: u128 = v;
    let mut i: usize = 0;
    proof {
        law_bytes_read_back(v as nat, n as nat, order);
        lemma_low_bytes(v as nat, n as nat);
        assert(low@ + low_bytes(rest as nat, n as nat) == low_bytes(v as nat, n as nat));
    }
    while i < n
        invariant
            i <= n,
            low@.len() == i,
            low@ + low_bytes(rest as nat, (n - i) as nat) == low_bytes(v as nat, n as nat),
        decreases n - i,
    {
        let ghost before: Seq<u8> = low@;
        let byte: u8 = (rest % 256) as u8;
        low.push(byte);
        proof {
            let tail = low_bytes(rest as nat / 256, (n - i - 1) as nat);
            assert(before.push(byte) + tail == before + (seq![byte] + tail));
        }
        rest = rest / 256;
        i = i + 1;
    }
    let ghost written: Seq<u8> = low@;
    assert(written == low_bytes(v as nat, n as nat)) by {
        assert(written + Seq::<u8>::empty() == written);
    }
    let mut j: usize = 0;
    while j < n
        invariant
            j <= n,
            low@ == written,
            written.len() == n,
            encoded(v as nat, n as nat, order).len() == n,
            written == low_bytes(v as nat, n as nat),
            out@ == old(out)@ + encoded(v as nat, n as nat, order).take(j as int),
        decreases n - j,
    {
        let byte: u8 = match order {
            ByteOrder::Little => low[j],
            ByteOrder::Big => low[n - 1 - j],
        };
        proof {
            let all = encoded(v as nat, n as nat, order);
            assert(all[j as int] == byte);
            assert(all.take(j + 1) == all.take(j as int).push(byte));
        }
        out.push(byte);
        j = j + 1;
    }
    proof {
        let all = encoded(v as nat, n as nat, order);
        assert(all.take(n as int) == all);
    }
}

/// The integer that `n` bytes from `at` on stand for.
pub fn read_uint(bytes: &[u8], at: usize, n: usize, order: ByteOrder) -> (v: u128)
    requires
        at + n <= bytes@.len(),
        n <= 16,
    ensures
        v == decoded(bytes@.subrange(at as int, at + n), order),
        v < pow256(n as nat),
{
    let ghost part: Seq<u8> = bytes@.subrange(at as int, at + n);
    let ghost low: Seq<u8> = match order {
        ByteOrder::Little => part,
        ByteOrder::Big => part.reverse(),
    };
    let total: usize = bytes.len();
    let mut v: u128 = 0;
    let mut i: usize = n;
    assert(low.skip(n as int) == Seq::<u8>::empty());
    while i > 0
        invariant
            i <= n <= 16,
            at + n <= total,
            total == bytes@.len(),
            part == bytes@.subrange(at as int, at + n),
            low == (match order {
                ByteOrder::Little => part,
                ByteOrder::Big => part.reverse(),
            }),
            v == low_value(low.skip(i as int)),
        decreases i,
    {
        let place: usize = match order {
            ByteOrder::Little => at + (i - 1),
            ByteOrder::Big => at + (n - i),
        };
        let byte: u8 = bytes[place];
        proof {
            let rest = low.skip(i as int);
            let longer = low.skip(i - 1);
            assert(longer.drop_first() == rest);
            assert(longer[0] == byte);
            lemma_low_value(longer);
            lemma_pow256_grows(longer.len(), 16);
            lemma_pow256(16);
        }
        v = byte as u128 + 256 * v;
        i = i - 1;
    }
    proof {
        assert(low.skip(0) == low);
        lemma_low_value(low);
    }
    v
}

} // verus!
