//! Big-endian integers read from byte slices.
use vstd::prelude::*;

verus! {

/// `256^n`.
pub open spec fn pow256(n: nat) -> nat
    decreases n,
{
    if n == 0 {
        1
    } else {
        256 * pow256((n - 1) as nat)
    }
}

/// The unsigned number that the bytes `s` spell in big-endian order.
pub open spec fn be_value(s: Seq<u8>) -> nat
    decreases s.len(),
{
    if s.len() == 0 {
        0
    } else {
        be_value(s.drop_last()) * 256 + s.last() as nat
    }
}

/// The `n` low-order bytes of `v`, most significant first.
pub open spec fn be_bytes(v: nat, n: nat) -> Seq<u8>
    decreases n,
{
    if n == 0 {
        Seq::empty()
    } else {
        be_bytes(v / 256, (n - 1) as nat).push((v % 256) as u8)
    }
}

pub proof fn lemma_pow256_values()
    ensures
        pow256(1) == 0x100,
        pow256(2) == 0x1_0000,
        pow256(4) == 0x1_0000_0000,
        pow256(8) == 0x1_0000_0000_0000_0000,
{
    reveal_with_fuel(pow256, 9);
}

pub proof fn lemma_pow256_monotone(a: nat, b: nat)
    requires
        a <= b,
    ensures
        pow256(a) <= pow256(b),
    decreases b,
{
    if a < b {
        lemma_pow256_monotone(a, (b - 1) as nat);
    }
}

pub proof fn lemma_be_value_bound(s: Seq<u8>)
    ensures
        be_value(s) < pow256(s.len()),
    decreases s.len(),
{
    if s.len() > 0 {
        lemma_be_value_bound(s.drop_last());
        let p = pow256((s.len() - 1) as nat);
        let v = be_value(s.drop_last());
        assert(v * 256 + (s.last() as nat) < 256 * p) by (nonlinear_arith)
            requires
                v < p,
                s.last() < 256,
        ;
    }
}

pub proof fn lemma_be_bytes_len(v: nat, n: nat)
    ensures
        be_bytes(v, n).len() == n,
    decreases n,
{
    if n > 0 {
        lemma_be_bytes_len(v / 256, (n - 1) as nat);
    }
}

/// Reading back `n` big-endian bytes gives the value that was written, when it fits.
pub proof fn lemma_be_round_trip(v: nat, n: nat)
    requires
        v < pow256(n),
    ensures
        be_value(be_bytes(v, n)) == v,
        be_bytes(v, n).len() == n,
    decreases n,
{
    lemma_be_bytes_len(v, n);
    if n > 0 {
        let p = pow256((n - 1) as nat);
        assert(v / 256 < p) by (nonlinear_arith)
            requires
                v < 256 * p,
        ;
        lemma_be_round_trip(v / 256, (n - 1) as nat);
        let b = be_bytes(v, n);
        assert(b.drop_last() =~= be_bytes(v / 256, (n - 1) as nat));
        assert((v / 256) * 256 + v % 256 == v) by (nonlinear_arith);
    }
}

pub proof fn lemma_be_value_push(s: Seq<u8>, b: u8)
    ensures
        be_value(s.push(b)) == be_value(s) * 256 + b as nat,
{
    assert(s.push(b).drop_last() =~= s);
}

/// Reads `n` bytes of `input` starting at `start` as a big-endian number.
pub fn read_be(input: &[u8], start: usize, n: usize) -> (r: u64)
    requires
        n <= 8,
        start + n <= input@.len(),
    ensures
        r as nat == be_value(input@.subrange(start as int, start + n)),
{
    let mut v: u64 = 0;
    let mut i: usize = start;
    let len: usize = input.len();
    let end: usize = start + n;
    proof {
        assert(input@.subrange(start as int, start as int) =~= Seq::<u8>::empty());
    }
    while i < end
        invariant
            n <= 8,
            end == start + n,
            start <= i <= end,
            end <= len == input@.len(),
            v as nat == be_value(input@.subrange(start as int, i as int)),
        decreases end - i,
    {
        proof {
            let s = input@.subrange(start as int, i as int);
            lemma_be_value_bound(s);
            lemma_pow256_monotone(s.len(), 7);
            reveal_with_fuel(pow256, 8);
            assert(input@.subrange(start as int, i + 1) =~= s.push(input@[i as int]));
            lemma_be_value_push(s, input@[i as int]);
        }
        v = v * 256 + input[i] as u64;
        i = i + 1;
    }
    v
}

/// The first two bytes of `input`, big-endian.
pub fn read_be_u16(input: &[u8]) -> (r: u16)
    requires
        input@.len() >= 2,
    ensures
        r as nat == be_value(input@.subrange(0, 2)),
{
    let v = read_be(input, 0, 2);
    proof {
        lemma_be_value_bound(input@.subrange(0, 2));
        lemma_pow256_values();
    }
    v as u16
}

/// The first four bytes of `input`, big-endian.
pub fn read_be_u32(input: &[u8]) -> (r: u32)
    requires
        input@.len() >= 4,
    ensures
        r as nat == be_value(input@.subrange(0, 4)),
{
    let v = read_be(input, 0, 4);
    proof {
        lemma_be_value_bound(input@.subrange(0, 4));
        lemma_pow256_values();
    }
    v as u32
}

/// The first eight bytes of `input`, big-endian.
pub fn read_be_u64(input: &[u8]) -> (r: u64)
    requires
        input@.len() >= 8,
    ensures
        r as nat == be_value(input@.subrange(0, 8)),
{
    read_be(input, 0, 8)
}

/// Appends the `n` low-order bytes of `v` to `out`, most significant first.
pub fn push_be(out: &mut Vec<u8>, v: u64, n: usize)
    requires
        n <= 8,
    ensures
        final(out)@ == old(out)@ + be_bytes(v as nat, n as nat),
    decreases n,
{
    if n == 0 {
        assert(old(out)@ + be_bytes(v as nat, 0) =~= old(out)@);
        return;
    }
    push_be(out, v / 256, n - 1);
    out.push((v % 256) as u8);
    assert(final(out)@ =~= old(out)@ + be_bytes(v as nat, n as nat));
}

} // verus!
