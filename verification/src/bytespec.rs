//! Mathematical description of the wire encodings: big-endian fixed-width
//! integers and the little-end-packed variable-length integers with MSB
//! continuation bits.

use vstd::prelude::*;

verus! {

/// Big-endian value of the `n` bytes of `s` starting at `pos`.
pub open spec fn be_value(s: Seq<u8>, pos: int, n: nat) -> nat
    decreases n,
{
    if n == 0 {
        0
    } else {
        (be_value(s, pos, (n - 1) as nat) * 256 + s[pos + n - 1]) as nat
    }
}

/// 128^n, the weight of the n-th payload group of a variable-length integer.
pub open spec fn pow128(n: nat) -> nat
    decreases n,
{
    if n == 0 {
        1
    } else {
        128 * pow128((n - 1) as nat)
    }
}

/// One scan of a variable-length integer at `pos`: up to `max` bytes, each
/// contributing its low 7 bits, least-significant group first; a clear top bit
/// ends the scan. Yields the accumulated value and the number of bytes
/// consumed, or `None` when the bytes run out mid-scan.
pub open spec fn var_scan(s: Seq<u8>, pos: int, max: nat) -> Option<(nat, nat)>
    decreases max,
{
    if max == 0 {
        Some((0, 0))
    } else if !(0 <= pos < s.len()) {
        None
    } else {
        let payload = (s[pos] % 128) as nat;
        if s[pos] < 128 || max == 1 {
            Some((payload, 1))
        } else {
            match var_scan(s, pos + 1, (max - 1) as nat) {
                None => None,
                Some((v, n)) => Some((payload + 128 * v, (n + 1) as nat)),
            }
        }
    }
}

/// The value of a scan stays below 128^max and consumes at least one byte,
/// so a bounded scan fits in a machine integer of the matching width.
pub proof fn lemma_var_scan_bound(s: Seq<u8>, pos: int, max: nat)
    requires
        0 <= pos <= s.len(),
    ensures
        match var_scan(s, pos, max) {
            Some((v, n)) => v < pow128(max) && n <= max && (max > 0 ==> 1 <= n) && pos + n
                <= s.len(),
            None => true,
        },
    decreases max,
{
    if max == 0 {
    } else if !(0 <= pos < s.len()) {
    } else if s[pos] < 128 || max == 1 {
        lemma_pow128_increases(1, max);
        assert(pow128(1) == 128 * pow128(0));
        assert(pow128(0) == 1);
    } else {
        lemma_var_scan_bound(s, pos + 1, (max - 1) as nat);
        assert(pow128(max) == 128 * pow128((max - 1) as nat));
    }
}

pub proof fn lemma_pow128_increases(m: nat, n: nat)
    requires
        m <= n,
    ensures
        pow128(m) <= pow128(n),
    decreases n,
{
    if m < n && n > 0 {
        lemma_pow128_increases(m, (n - 1) as nat);
    }
}

/// Two positions whose byte suffixes agree give the same scan.
pub proof fn lemma_var_scan_agree(s: Seq<u8>, t: Seq<u8>, pos: int, qos: int, max: nat)
    requires
        0 <= pos <= s.len(),
        0 <= qos <= t.len(),
        s.len() - pos == t.len() - qos,
        forall|k: int| pos <= k < s.len() ==> s[k] == #[trigger] t[qos + (k - pos)],
    ensures
        var_scan(s, pos, max) == var_scan(t, qos, max),
    decreases max,
{
    if max == 0 {
    } else if pos == s.len() {
    } else {
        assert(s[pos] == t[qos + (pos - pos)]);
        if !(s[pos] < 128 || max == 1) {
            assert forall|k: int| pos + 1 <= k < s.len() implies s[k] == #[trigger] t[(qos + 1) + (
            k - (pos + 1))] by {
                assert(s[k] == t[qos + (k - pos)]);
            }
            lemma_var_scan_agree(s, t, pos + 1, qos + 1, (max - 1) as nat);
        }
    }
}

/// Two positions whose byte suffixes agree give the same big-endian value,
/// provided the read stays inside the suffix.
pub proof fn lemma_be_value_agree(s: Seq<u8>, t: Seq<u8>, pos: int, qos: int, n: nat)
    requires
        0 <= pos,
        pos + n <= s.len(),
        0 <= qos,
        qos + n <= t.len(),
        forall|k: int| 0 <= k < n ==> s[pos + k] == #[trigger] t[qos + k],
    ensures
        be_value(s, pos, n) == be_value(t, qos, n),
    decreases n,
{
    if n > 0 {
        lemma_be_value_agree(s, t, pos, qos, (n - 1) as nat);
        assert(s[pos + (n - 1)] == t[qos + (n - 1)]);
    }
}

/// A big-endian read of `n` bytes stays below 256^n; stated for the widths
/// the cursor offers so the readers can cast without overflow.
pub proof fn lemma_be_value_bound(s: Seq<u8>, pos: int, n: nat)
    ensures
        n == 1 ==> be_value(s, pos, n) < 0x100,
        n == 2 ==> be_value(s, pos, n) < 0x10000,
        n == 3 ==> be_value(s, pos, n) < 0x1000000,
        n == 4 ==> be_value(s, pos, n) < 0x100000000,
        n == 8 ==> be_value(s, pos, n) < 0x10000000000000000,
{
    lemma_be_value_general_bound(s, pos, n);
    lemma_pow256_values();
}

pub proof fn lemma_be_value_general_bound(s: Seq<u8>, pos: int, n: nat)
    ensures
        be_value(s, pos, n) < pow256(n),
    decreases n,
{
    if n > 0 {
        lemma_be_value_general_bound(s, pos, (n - 1) as nat);
    }
}

/// 256^n.
pub open spec fn pow256(n: nat) -> nat
    decreases n,
{
    if n == 0 {
        1
    } else {
        256 * pow256((n - 1) as nat)
    }
}

/// Spells out the small powers of 256 that the fixed-width readers need.
pub proof fn lemma_pow256_values()
    ensures
        pow256(0) == 1,
        pow256(1) == 0x100,
        pow256(2) == 0x10000,
        pow256(3) == 0x1000000,
        pow256(4) == 0x100000000,
        pow256(5) == 0x10000000000,
        pow256(6) == 0x1000000000000,
        pow256(7) == 0x100000000000000,
        pow256(8) == 0x10000000000000000,
{
    assert(pow256(0) == 1);
    assert(pow256(1) == 0x100);
    assert(pow256(2) == 0x10000);
    assert(pow256(3) == 0x1000000);
    assert(pow256(4) == 0x100000000);
    assert(pow256(5) == 0x10000000000);
    assert(pow256(6) == 0x1000000000000);
    assert(pow256(7) == 0x100000000000000);
    assert(pow256(8) == 0x10000000000000000);
}

pub proof fn lemma_pow256_increases(m: nat, n: nat)
    requires
        m <= n,
    ensures
        pow256(m) <= pow256(n),
    decreases n,
{
    if m < n && n > 0 {
        lemma_pow256_increases(m, (n - 1) as nat);
    }
}

/// Spells out the small powers of 128 that the variable-length readers need.
pub proof fn lemma_pow128_values()
    ensures
        pow128(0) == 1,
        pow128(1) == 0x80,
        pow128(2) == 0x4000,
        pow128(3) == 0x200000,
        pow128(4) == 0x10000000,
        pow128(5) == 0x800000000,
        pow128(10) == 1180591620717411303424int,
{
    assert(pow128(0) == 1);
    assert(pow128(1) == 0x80);
    assert(pow128(2) == 0x4000);
    assert(pow128(3) == 0x200000);
    assert(pow128(4) == 0x10000000);
    assert(pow128(5) == 0x800000000);
    assert(pow128(6) == 0x40000000000);
    assert(pow128(7) == 0x2000000000000);
    assert(pow128(8) == 0x100000000000000);
    assert(pow128(9) == 0x8000000000000000);
    assert(pow128(10) == 128 * pow128(9));
    assert(pow128(10) == 1180591620717411303424int);
}

} // verus!
