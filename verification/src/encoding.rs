//! Number encodings of the on-disk formats: decimal text, and fixed-width
//! big-endian integers.
use vstd::prelude::*;

verus! {

/// Decimal digits of a number, most significant first, without leading zeros
/// (`0` is the single digit `0`).
pub open spec fn decimal(n: nat) -> Seq<u8>
    decreases n,
{
    if n < 10 {
        seq![(48 + n) as u8]
    } else {
        decimal(n / 10).push((48 + n % 10) as u8)
    }
}

/// A number has at least one decimal digit, and every digit is `0`..`9`.
pub proof fn lemma_decimal_digits(n: nat)
    ensures
        decimal(n).len() >= 1,
        forall|i: int| 0 <= i < decimal(n).len() ==> 48 <= #[trigger] decimal(n)[i] <= 57,
    decreases n,
{
    if n >= 10 {
        lemma_decimal_digits(n / 10);
    }
}

/// The number that a string of decimal digits denotes.
pub open spec fn decimal_value(d: Seq<u8>) -> nat
    decreases d.len(),
{
    if d.len() == 0 {
        0
    } else {
        decimal_value(d.drop_last()) * 10 + (d.last() - 48) as nat
    }
}

/// A canonical decimal numeral: at least one digit, all bytes `0`..`9`, and
/// no leading zero unless it is the single digit `0`.
pub open spec fn is_canonical_decimal(d: Seq<u8>) -> bool {
    &&& d.len() >= 1
    &&& forall|i: int| 0 <= i < d.len() ==> 48 <= #[trigger] d[i] <= 57
    &&& (d.len() == 1 || d[0] != 48)
}

/// The decimal digits of a number are a canonical numeral that reads back as
/// that number.
pub proof fn lemma_decimal_reads_back(n: nat)
    ensures
        is_canonical_decimal(decimal(n)),
        decimal_value(decimal(n)) == n,
        n >= 1 ==> decimal(n)[0] != 48,
    decreases n,
{
    lemma_decimal_digits(n);
    if n >= 10 {
        lemma_decimal_reads_back(n / 10);
        assert(decimal(n).drop_last() =~= decimal(n / 10));
        assert(decimal(n)[0] == decimal(n / 10)[0]);
        assert(decimal(n).last() == 48 + n % 10);
        assert(decimal_value(decimal(n)) == decimal_value(decimal(n / 10)) * 10 + n % 10);
        assert((n / 10) * 10 + n % 10 == n);
    } else {
        assert(decimal(n).drop_last() =~= seq![]);
        assert(decimal_value(decimal(n).drop_last()) == 0);
    }
}

/// Numbers below `10^k` have at most `k` decimal digits; in particular
/// any `u64` or `usize` has at most 20.
pub proof fn lemma_decimal_len_u64(n: nat)
    requires
        n <= u64::MAX,
    ensures
        decimal(n).len() <= 20,
{
    lemma_decimal_len_bound(n, 20);
}

spec fn pow10(k: nat) -> nat
    decreases k,
{
    if k == 0 {
        1
    } else {
        10 * pow10((k - 1) as nat)
    }
}

proof fn lemma_decimal_len_bound(n: nat, k: nat)
    requires
        k >= 1,
        n < pow10(k) || (k == 20 && n <= u64::MAX),
    ensures
        decimal(n).len() <= k,
    decreases n,
{
    if k == 20 && n <= u64::MAX {
        reveal_with_fuel(pow10, 21);
        assert(pow10(20) == 100000000000000000000);
    }
    if n >= 10 {
        assert(k >= 2) by {
            if k == 1 {
                assert(pow10(1) == 10);
            }
        }
        assert(n / 10 < pow10((k - 1) as nat)) by {
            assert(pow10(k) == 10 * pow10((k - 1) as nat));
        }
        lemma_decimal_len_bound(n / 10, (k - 1) as nat);
    }
}

/// Writes the decimal digits of `tree_size` into `buf` so that they end just
/// before `offset`, and returns the position of the first digit.
pub fn prepend_integer(buf: &mut Vec<u8>, tree_size: usize, offset: usize) -> (res: usize)
    requires
        offset <= old(buf)@.len(),
        decimal(tree_size as nat).len() <= offset,
    ensures
        res == offset - decimal(tree_size as nat).len(),
        final(buf)@ == old(buf)@.take(res as int) + decimal(tree_size as nat) + old(buf)@.skip(
            offset as int,
        ),
        final(buf)@.len() == old(buf)@.len(),
        final(buf)@.take(res as int) == old(buf)@.take(res as int),
        final(buf)@.skip(offset as int) == old(buf)@.skip(offset as int),
        is_canonical_decimal(final(buf)@.subrange(res as int, offset as int)),
        decimal_value(final(buf)@.subrange(res as int, offset as int)) == tree_size,
{
    let ghost n = tree_size as nat;
    proof {
        lemma_decimal_reads_back(n);
        lemma_decimal_digits(n);
    }
    let ghost start = buf@;
    let ghost end = offset;
    let mut tree_size = tree_size;
    let mut offset = offset;
    if tree_size == 0 {
        offset -= 1;
        buf.set(offset, 48u8);
        assert(buf@ =~= start.take(offset as int) + decimal(n) + start.skip(end as int));
        assert(buf@.subrange(offset as int, end as int) =~= decimal(n));
        assert(buf@.take(offset as int) =~= start.take(offset as int));
        assert(buf@.skip(end as int) =~= start.skip(end as int));
        return offset;
    }
    proof {
        lemma_decimal_digits(n);
    }
    assert(start.subrange(end as int, end as int) =~= seq![]);
    assert(decimal(n) =~= decimal(n) + seq![]);
    while tree_size > 0
        invariant
            offset <= end <= start.len(),
            buf@.len() == start.len(),
            forall|j: int| 0 <= j < offset ==> buf@[j] == start[j],
            forall|j: int| end <= j < start.len() ==> buf@[j] == start[j],
            tree_size > 0 ==> decimal(n) == decimal(tree_size as nat) + buf@.subrange(
                offset as int,
                end as int,
            ),
            tree_size == 0 ==> decimal(n) == buf@.subrange(offset as int, end as int),
            decimal(n).len() <= end,
            n > 0,
        decreases tree_size,
    {
        proof {
            lemma_decimal_digits(tree_size as nat);
        }
        let ghost old_ts = tree_size as nat;
        let ghost old_region = buf@.subrange(offset as int, end as int);
        offset -= 1;
        let rest = (tree_size % 10) as u8;
        tree_size /= 10;
        buf.set(offset, 48u8 + rest);
        proof {
            let region = buf@.subrange(offset as int, end as int);
            assert(region =~= seq![(48 + old_ts % 10) as u8] + old_region);
            if old_ts >= 10 {
                assert(decimal(old_ts) == decimal(old_ts / 10).push((48 + old_ts % 10) as u8));
                assert(decimal(old_ts) + old_region =~= decimal(tree_size as nat) + region);
            } else {
                assert(decimal(old_ts) + old_region =~= region);
            }
        }
    }
    assert(buf@ =~= start.take(offset as int) + decimal(n) + start.skip(end as int));
    assert(buf@.subrange(offset as int, end as int) =~= decimal(n));
    assert(buf@.take(offset as int) =~= start.take(offset as int));
    assert(buf@.skip(end as int) =~= start.skip(end as int));
    offset
}


/// The digits of a 64-bit number in decimal.
pub fn decimal_bytes(n: u64) -> (res: Vec<u8>)
    ensures
        res@ == decimal(n as nat),
        is_canonical_decimal(res@),
        decimal_value(res@) == n,
{
    proof {
        lemma_decimal_reads_back(n as nat);
    }
    if n == 0 {
        let mut zero: Vec<u8> = Vec::new();
        zero.push(48u8);
        assert(zero@ =~= decimal(0));
        return zero;
    }
    let mut rev: Vec<u8> = Vec::new();
    let mut m = n;
    assert(rev@.reverse() =~= seq![]);
    assert(decimal(n as nat) =~= decimal(n as nat) + rev@.reverse());
    while m > 0
        invariant
            m > 0 ==> decimal(n as nat) == decimal(m as nat) + rev@.reverse(),
            m == 0 ==> decimal(n as nat) == rev@.reverse(),
        decreases m,
    {
        let ghost old_m = m as nat;
        let ghost old_rev = rev@;
        rev.push(48u8 + (m % 10) as u8);
        m = m / 10;
        proof {
            assert(rev@.reverse() =~= seq![(48 + old_m % 10) as u8] + old_rev.reverse());
            if old_m >= 10 {
                assert(decimal(old_m) == decimal(old_m / 10).push((48 + old_m % 10) as u8));
                assert(decimal(old_m) + old_rev.reverse() =~= decimal(m as nat) + rev@.reverse());
            } else {
                assert(decimal(old_m) + old_rev.reverse() =~= rev@.reverse());
            }
        }
    }
    let mut res: Vec<u8> = Vec::new();
    let mut i: usize = rev.len();
    while i > 0
        invariant
            i <= rev@.len(),
            res@ == rev@.reverse().take((rev@.len() - i) as int),
        decreases i,
    {
        i = i - 1;
        res.push(rev[i]);
        assert(res@ =~= rev@.reverse().take((rev@.len() - i) as int));
    }
    assert(rev@.reverse().take(rev@.len() as int) =~= rev@.reverse());
    res
}


/// The `n` low bytes of a number, most significant first.
pub open spec fn be_bytes(v: nat, n: nat) -> Seq<u8>
    decreases n,
{
    if n == 0 {
        seq![]
    } else {
        be_bytes(v / 256, (n - 1) as nat).push((v % 256) as u8)
    }
}

/// The number that big-endian bytes denote.
pub open spec fn be_value(s: Seq<u8>) -> nat
    decreases s.len(),
{
    if s.len() == 0 {
        0
    } else {
        be_value(s.drop_last()) * 256 + s.last() as nat
    }
}

/// `256^n`.
pub open spec fn pow256(n: nat) -> nat
    decreases n,
{
    if n == 0 {
        1
    } else {
        256 * pow256((n - 1) as nat)
    }
}

pub proof fn lemma_be_bytes_len(v: nat, n: nat)
    ensures
        be_bytes(v, n).len() == n,
    decreases n,
{
    if n > 0 {
        lemma_be_bytes_len(v / 256, (n - 1) as nat);
    }
}

/// `n` bytes denote a number below `256^n`.
pub proof fn lemma_be_value_bound(s: Seq<u8>)
    ensures
        be_value(s) < pow256(s.len()),
    decreases s.len(),
{
    if s.len() > 0 {
        lemma_be_value_bound(s.drop_last());
    }
}

/// Reading back the `n` big-endian bytes of a number below `256^n` gives it.
pub proof fn lemma_be_roundtrip(v: nat, n: nat)
    requires
        v < pow256(n),
    ensures
        be_value(be_bytes(v, n)) == v,
    decreases n,
{
    if n > 0 {
        assert(v / 256 < pow256((n - 1) as nat));
        lemma_be_roundtrip(v / 256, (n - 1) as nat);
        assert(be_bytes(v, n).drop_last() =~= be_bytes(v / 256, (n - 1) as nat));
    }
}

pub proof fn lemma_pow256_values()
    ensures
        pow256(2) == 0x1_0000,
        pow256(4) == 0x1_0000_0000,
        pow256(8) == 0x1_0000_0000_0000_0000,
        pow256(16) == 0x1_0000_0000_0000_0000_0000_0000_0000_0000,
{
    reveal_with_fuel(pow256, 17);
}

/// Appends the `n` low bytes of `v`, most significant first.
pub fn push_be(buf: &mut Vec<u8>, v: u128, n: usize)
    requires
        n <= 16,
    ensures
        final(buf)@ == old(buf)@ + be_bytes(v as nat, n as nat),
{
    let mut bytes: Vec<u8> = Vec::new();
    let mut k: usize = 0;
    while k < n
        invariant
            k <= n,
            bytes@.len() == k,
        decreases n - k,
    {
        bytes.push(0u8);
        k = k + 1;
    }
    let mut tmp: u128 = v;
    let mut j: usize = n;
    proof {
        lemma_be_bytes_len(v as nat, n as nat);
    }
    assert(bytes@.subrange(n as int, n as int) =~= seq![]);
    assert(be_bytes(v as nat, n as nat) =~= be_bytes(v as nat, n as nat) + seq![]);
    while j > 0
        invariant
            j <= n,
            bytes@.len() == n,
            be_bytes(v as nat, n as nat) == be_bytes(tmp as nat, j as nat) + bytes@.subrange(
                j as int,
                n as int,
            ),
        decreases j,
    {
        let ghost old_tmp = tmp as nat;
        let ghost old_tail = bytes@.subrange(j as int, n as int);
        j = j - 1;
        bytes.set(j, (tmp % 256) as u8);
        tmp = tmp / 256;
        proof {
            assert(bytes@.subrange(j as int, n as int) =~= seq![(old_tmp % 256) as u8] + old_tail);
            assert(be_bytes(old_tmp, (j + 1) as nat) == be_bytes(tmp as nat, j as nat).push(
                (old_tmp % 256) as u8,
            ));
            assert(be_bytes(old_tmp, (j + 1) as nat) + old_tail =~= be_bytes(tmp as nat, j as nat)
                + bytes@.subrange(j as int, n as int));
        }
    }
    assert(bytes@.subrange(0, n as int) =~= bytes@);
    assert(be_bytes(tmp as nat, 0) =~= seq![]);
    let ghost before = buf@;
    let mut i: usize = 0;
    while i < n
        invariant
            i <= n,
            bytes@.len() == n,
            buf@ == before + bytes@.take(i as int),
        decreases n - i,
    {
        buf.push(bytes[i]);
        assert(bytes@.take(i + 1) =~= bytes@.take(i as int).push(bytes@[i as int]));
        i = i + 1;
    }
    assert(bytes@.take(n as int) =~= bytes@);
}

/// The number denoted by `data[start..start + n]` read big-endian.
pub fn read_be(data: &[u8], start: usize, n: usize) -> (v: u128)
    requires
        n <= 16,
        start + n <= data@.len(),
    ensures
        v == be_value(data@.subrange(start as int, start + n)),
{
    let ghost part = data@.subrange(start as int, start + n);
    let mut acc: u128 = 0;
    let mut i: usize = 0;
    proof {
        lemma_pow256_values();
    }
    assert(part.take(0) =~= seq![]);
    while i < n
        invariant
            i <= n <= 16,
            start + n <= data.len(),
            part == data@.subrange(start as int, start + n),
            acc == be_value(part.take(i as int)),
            pow256(16) == 0x1_0000_0000_0000_0000_0000_0000_0000_0000,
        decreases n - i,
    {
        proof {
            lemma_be_value_bound(part.take(i as int));
            lemma_pow256_mono(i as nat, 15);
            assert(pow256(16) == 256 * pow256(15));
            assert(acc < pow256(15));
            let p15 = pow256(15);
            assert(acc * 256 + 255 < 256 * p15) by (nonlinear_arith)
                requires
                    acc < p15,
            ;
            assert(part.take(i + 1).drop_last() =~= part.take(i as int));
        }
        acc = acc * 256 + data[start + i] as u128;
        i = i + 1;
    }
    assert(part.take(n as int) =~= part);
    acc
}

proof fn lemma_pow256_mono(a: nat, b: nat)
    requires
        a <= b,
    ensures
        pow256(a) <= pow256(b),
    decreases b,
{
    if a < b {
        lemma_pow256_mono(a, (b - 1) as nat);
    }
}

/// Appends `src[from..to]`.
pub fn push_range(dst: &mut Vec<u8>, src: &[u8], from: usize, to: usize)
    requires
        from <= to <= src@.len(),
    ensures
        final(dst)@ == old(dst)@ + src@.subrange(from as int, to as int),
{
    let ghost start = dst@;
    let mut i = from;
    while i < to
        invariant
            from <= i <= to <= src@.len(),
            dst@ == start + src@.subrange(from as int, i as int),
        decreases to - i,
    {
        dst.push(src[i]);
        assert(src@.subrange(from as int, i + 1) =~= src@.subrange(from as int, i as int).push(
            src@[i as int],
        ));
        i = i + 1;
    }
}

} // verus!
