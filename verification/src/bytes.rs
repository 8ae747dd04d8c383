//! Little-endian integers.

use vstd::prelude::*;

verus! {

/// `v` in `n` bytes, the lowest first.
pub open spec fn le_bytes(v: nat, n: nat) -> Seq<u8>
    decreases n,
{
    if n == 0 {
        Seq::empty()
    } else {
        seq![(v % 256) as u8] + le_bytes(v / 256, (n - 1) as nat)
    }
}

/// The integer that `s` holds, the lowest byte first.
pub open spec fn le_value(s: Seq<u8>) -> nat
    decreases s.len(),
{
    if s.len() == 0 {
        0
    } else {
        s[0] as nat + 256 * le_value(s.drop_first())
    }
}

/// How many values `n` bytes can hold.
pub open spec fn byte_range(n: nat) -> nat
    decreases n,
{
    if n == 0 {
        1
    } else {
        256 * byte_range((n - 1) as nat)
    }
}

pub proof fn lemma_le_bytes_len(v: nat, n: nat)
    ensures
        le_bytes(v, n).len() == n,
    decreases n,
{
    if n > 0 {
        lemma_le_bytes_len(v / 256, (n - 1) as nat);
    }
}

/// An integer that fits is read back from its bytes.
pub proof fn law_le_round_trip(v: nat, n: nat)
    requires
        v < byte_range(n),
    ensures
        le_value(le_bytes(v, n)) == v,
        le_bytes(v, n).len() == n,
    decreases n,
{
    if n > 0 {
        law_le_round_trip(v / 256, (n - 1) as nat);
        assert(le_bytes(v, n).drop_first() =~= le_bytes(v / 256, (n - 1) as nat));
    }
}

/// `n` bytes hold less than their range.
pub proof fn lemma_le_value_bound(s: Seq<u8>)
    ensures
        le_value(s) < byte_range(s.len()),
    decreases s.len(),
{
    if s.len() > 0 {
        lemma_le_value_bound(s.drop_first());
    }
}

/// What two and eight bytes mean: each byte counts 256 times as much as the one before.
pub proof fn law_le_value(s: Seq<u8>)
    ensures
        s.len() == 2 ==> le_value(s) == s[0] + 256 * s[1],
        s.len() == 8 ==> le_value(s) == s[0] + 0x100 * s[1] + 0x1_0000 * s[2] + 0x100_0000 * s[3]
            + 0x1_0000_0000 * s[4] + 0x100_0000_0000 * s[5] + 0x1_0000_0000_0000 * s[6]
            + 0x100_0000_0000_0000 * s[7],
{
    reveal_with_fuel(le_value, 9);
    if s.len() == 2 {
        let s1 = s.drop_first();
        assert(s1[0] == s[1]);
        assert(s1.drop_first().len() == 0);
    }
    if s.len() == 8 {
        let s1 = s.drop_first();
        let s2 = s1.drop_first();
        let s3 = s2.drop_first();
        let s4 = s3.drop_first();
        let s5 = s4.drop_first();
        let s6 = s5.drop_first();
        let s7 = s6.drop_first();
        assert(s1[0] == s[1] && s2[0] == s[2] && s3[0] == s[3] && s4[0] == s[4] && s5[0] == s[5]
            && s6[0] == s[6] && s7[0] == s[7]);
        assert(s7.drop_first().len() == 0);
    }
}

pub proof fn lemma_byte_ranges()
    ensures
        byte_range(2) == 0x1_0000,
        byte_range(8) == 0x1_0000_0000_0000_0000,
{
    reveal_with_fuel(byte_range, 9);
}

/// `v` in `n` bytes, the lowest first.
pub fn put_le(v: u64, n: usize) -> (out: Vec<u8>)
    ensures
        out@ == le_bytes(v as nat, n as nat),
{
    let mut out: Vec<u8> = Vec::new();
    let mut rest: u64 = v;
    let mut i: usize = 0;
    while i < n
        invariant
            i <= n,
            out@ + le_bytes(rest as nat, (n - i) as nat) == le_bytes(v as nat, n as nat),
        decreases n - i,
    {
        let ghost before = out@;
        out.push((rest % 256) as u8);
        assert(before + le_bytes(rest as nat, (n - i) as nat) =~= out@ + le_bytes(
            (rest / 256) as nat,
            (n - i - 1) as nat,
        ));
        rest = rest / 256;
        i += 1;
    }
    assert(out@ + le_bytes(rest as nat, 0) =~= out@);
    out
}

/// The integer that up to eight bytes hold, the lowest first.
pub fn get_le(s: &[u8], from: usize, n: usize) -> (v: u64)
    requires
        n <= 8,
        from + n <= s@.len(),
    ensures
        v == le_value(s@.subrange(from as int, from + n)),
{
    let len: usize = s.len();
    let mut v: u64 = 0;
    let mut i: usize = n;
    proof {
        reveal_with_fuel(byte_range, 9);
        assert(s@.subrange(from + n, from + n).len() == 0);
    }
    while i > 0
        invariant
            i <= n <= 8,
            from + n <= s@.len() == len,
            v == le_value(s@.subrange(from + i, from + n)),
        decreases i,
    {
        proof {
            let tail = s@.subrange(from + i, from + n);
            let whole = s@.subrange(from + i - 1, from + n);
            assert(whole.drop_first() =~= tail);
            lemma_le_value_bound(whole);
            reveal_with_fuel(byte_range, 9);
        }
        v = s[from + (i - 1)] as u64 + 256 * v;
        i -= 1;
    }
    v
}

} // verus!
