use vstd::prelude::*;
use vstd::arithmetic::div_mod::{lemma_div_denominator, lemma_fundamental_div_mod};

verus! {

/// `256^k`.
pub open spec fn pow256(k: nat) -> nat
    decreases k,
{
    if k == 0 {
        1
    } else {
        256 * pow256((k - 1) as nat)
    }
}

/// The `k`-byte big-endian representation of `n % 256^k`.
pub open spec fn be_bytes(n: nat, k: nat) -> Seq<u8>
    decreases k,
{
    if k == 0 {
        Seq::empty()
    } else {
        be_bytes(n / 256, (k - 1) as nat).push((n % 256) as u8)
    }
}

/// The integer carried by a big-endian byte string.
pub open spec fn be_val(s: Seq<u8>) -> nat
    decreases s.len(),
{
    if s.len() == 0 {
        0
    } else {
        (be_val(s.drop_last()) * 256 + s.last()) as nat
    }
}

/// A sequence of `k` zero bytes.
pub open spec fn zeros(k: nat) -> Seq<u8> {
    Seq::new(k, |i: int| 0u8)
}

/// The 32-byte word that carries the integer `n`: a length or an offset word.
pub open spec fn len_word(n: nat) -> Seq<u8> {
    be_bytes(n, 32)
}

pub broadcast proof fn lemma_be_bytes_len(n: nat, k: nat)
    ensures
        (#[trigger] be_bytes(n, k)).len() == k,
    decreases k,
{
    if k > 0 {
        lemma_be_bytes_len(n / 256, (k - 1) as nat);
    }
}

pub proof fn lemma_pow256_8()
    ensures
        pow256(8) == 0x10000000000000000,
{
    reveal_with_fuel(pow256, 9);
}

pub proof fn lemma_pow256_pos(k: nat)
    ensures
        pow256(k) >= 1,
    decreases k,
{
    if k > 0 {
        lemma_pow256_pos((k - 1) as nat);
    }
}

pub proof fn lemma_pow256_mono(a: nat, b: nat)
    requires
        a <= b,
    ensures
        pow256(a) <= pow256(b),
    decreases b,
{
    if a < b && b > 0 {
        lemma_pow256_mono(a, (b - 1) as nat);
        lemma_pow256_pos((b - 1) as nat);
    }
}

/// Each byte of `be_bytes(n, k)` is the corresponding base-256 digit of `n`.
pub proof fn lemma_be_bytes_index(n: nat, k: nat, i: int)
    requires
        0 <= i < k,
    ensures
        be_bytes(n, k)[i] == ((n / pow256((k - 1 - i) as nat)) % 256) as u8,
    decreases k,
{
    lemma_be_bytes_len(n / 256, (k - 1) as nat);
    if i == k - 1 {
        assert(pow256(0) == 1);
        assert(n / 1 == n);
    } else {
        lemma_be_bytes_index(n / 256, (k - 1) as nat, i);
        let m = (k - 2 - i) as nat;
        lemma_pow256_pos(m);
        lemma_div_denominator(n as int, 256, pow256(m) as int);
        assert(256 * pow256(m) == pow256((m + 1) as nat));
        assert((n / 256) / pow256(m) == n / pow256((k - 1 - i) as nat));
    }
}

/// Reading back the big-endian bytes of `n` yields `n`.
pub proof fn lemma_be_val_be_bytes(n: nat, k: nat)
    requires
        n < pow256(k),
    ensures
        be_val(be_bytes(n, k)) == n,
    decreases k,
{
    if k == 0 {
    } else {
        lemma_be_bytes_len(n / 256, (k - 1) as nat);
        assert(be_bytes(n, k).drop_last() =~= be_bytes(n / 256, (k - 1) as nat));
        assert(n / 256 < pow256((k - 1) as nat)) by {
            lemma_pow256_pos((k - 1) as nat);
            lemma_fundamental_div_mod(n as int, 256);
        };
        lemma_be_val_be_bytes(n / 256, (k - 1) as nat);
        lemma_fundamental_div_mod(n as int, 256);
    }
}

/// A nonzero byte at position `j` forces the value of the string up.
pub proof fn lemma_be_val_lower(s: Seq<u8>, j: int)
    requires
        0 <= j < s.len(),
    ensures
        be_val(s) >= s[j] * pow256((s.len() - 1 - j) as nat),
    decreases s.len(),
{
    if j == s.len() - 1 {
        assert(pow256(0) == 1);
        assert(s[j] * pow256(0) == s[j]) by (nonlinear_arith);
        assert(be_val(s) == be_val(s.drop_last()) * 256 + s.last());
        assert(be_val(s) >= s[j] * pow256((s.len() - 1 - j) as nat));
    } else {
        lemma_be_val_lower(s.drop_last(), j);
        let m = (s.len() - 2 - j) as nat;
        assert(s.drop_last()[j] == s[j]);
        assert(be_val(s.drop_last()) >= s[j] * pow256(m));
        assert(be_val(s) == be_val(s.drop_last()) * 256 + s.last());
        assert(be_val(s.drop_last()) * 256 >= (s[j] * pow256(m)) * 256);
        assert((s[j] * pow256(m)) * 256 == s[j] * (256 * pow256(m))) by (nonlinear_arith);
        assert(256 * pow256(m) == pow256((m + 1) as nat));
        assert(pow256((s.len() - 1 - j) as nat) == pow256((m + 1) as nat));
        assert(be_val(s) >= s[j] * pow256((s.len() - 1 - j) as nat));
    }
}

/// Pushes the 32-byte word carrying `n` onto `out`.
pub fn push_len_word(out: &mut Vec<u8>, n: usize)
    ensures
        final(out)@ == old(out)@ + len_word(n as nat),
{
    let ghost start = out@;
    let mut i: usize = 0;
    while i < 24
        invariant
            i <= 24,
            out@ == start + zeros(i as nat),
        decreases 24 - i,
    {
        out.push(0u8);
        proof {
            assert(start + zeros(i as nat) + seq![0u8] =~= start + zeros((i + 1) as nat));
        }
        i = i + 1;
    }
    // digits of n, least significant first
    proof {
        assert(pow256(0) == 1);
        assert(n as nat / 1 == n as nat);
    }
    let mut tmp: Vec<u8> = Vec::new();
    let mut m: usize = n;
    let mut j: usize = 0;
    while j < 8
        invariant
            j <= 8,
            m as nat == n as nat / pow256(j as nat),
            tmp@.len() == j,
            forall|p: int|
                0 <= p < j ==> tmp@[p] == ((n as nat / pow256(p as nat)) % 256) as u8,
        decreases 8 - j,
    {
        let ghost m0 = m as nat;
        tmp.push((m % 256) as u8);
        m = m / 256;
        proof {
            lemma_pow256_pos(j as nat);
            lemma_div_denominator(n as int, pow256(j as nat) as int, 256);
            assert(pow256(j as nat) * 256 == 256 * pow256(j as nat)) by (nonlinear_arith);
            assert(256 * pow256(j as nat) == pow256((j + 1) as nat));
        }
        j = j + 1;
    }
    let mut r: usize = 0;
    while r < 8
        invariant
            r <= 8,
            tmp@.len() == 8,
            forall|p: int|
                0 <= p < 8 ==> tmp@[p] == ((n as nat / pow256(p as nat)) % 256) as u8,
            out@.len() == start.len() + 24 + r,
            out@ == start + zeros(24) + Seq::new(r as nat, |q: int| tmp@[7 - q]),
        decreases 8 - r,
    {
        let b = tmp[7 - r];
        out.push(b);
        proof {
            assert(out@ =~= start + zeros(24) + Seq::new(
                (r + 1) as nat,
                |q: int| tmp@[7 - q],
            ));
        }
        r = r + 1;
    }
    proof {
        assert forall|i: int| 0 <= i < 32 implies (zeros(24) + Seq::new(
            8nat,
            |q: int| tmp@[7 - q],
        ))[i] == len_word(n as nat)[i] by {
            lemma_be_bytes_len(n as nat, 32);
            lemma_be_bytes_index(n as nat, 32, i);
            let e = (31 - i) as nat;
            if i < 24 {
                assert((n as nat) < pow256(8)) by {
                    lemma_pow256_8();
                    assert(usize::MAX <= u64::MAX);
                };
                lemma_pow256_mono(8, e);
                assert(n as nat / pow256(e) == 0) by {
                    lemma_pow256_pos(e);
                    vstd::arithmetic::div_mod::lemma_basic_div(n as int, pow256(e) as int);
                };
            } else {
                assert(tmp@[7 - (i - 24)] == ((n as nat / pow256(e)) % 256) as u8);
            }
        }
        lemma_be_bytes_len(n as nat, 32);
        assert(zeros(24) + Seq::new(8nat, |q: int| tmp@[7 - q]) =~= len_word(n as nat));
        assert(out@ =~= start + len_word(n as nat));
    }
}

/// Reads the 32-byte word at `pos` as an integer, if it fits a `usize`.
pub fn read_word_usize(data: &[u8], pos: usize) -> (r: Option<usize>)
    requires
        pos + 32 <= data@.len(),
    ensures
        match r {
            Some(v) => v as nat == be_val(data@.subrange(pos as int, pos + 32))
                && be_val(data@.subrange(pos as int, pos + 32)) <= usize::MAX,
            None => be_val(data@.subrange(pos as int, pos + 32)) > usize::MAX,
        },
{
    let ghost w = data@.subrange(pos as int, pos + 32);
    let dlen: usize = data.len();
    let mut i: usize = 0;
    while i < 24
        invariant
            i <= 24,
            pos + 32 <= data@.len(),
            pos + 32 <= dlen,
            w == data@.subrange(pos as int, pos + 32),
            forall|p: int| 0 <= p < i ==> w[p] == 0,
        decreases 24 - i,
    {
        if data[pos + i] != 0 {
            proof {
                lemma_be_val_lower(w, i as int);
                let e = (31 - i) as nat;
                lemma_pow256_mono(8, e);
                lemma_pow256_8();
                assert(w[i as int] * pow256(e) >= pow256(e)) by (nonlinear_arith)
                    requires w[i as int] >= 1, pow256(e) >= 0;
                assert(usize::MAX <= u64::MAX);
            }
            return None;
        }
        i = i + 1;
    }
    proof {
        lemma_be_val_zeros(w.subrange(0, 24));
    }
    let mut acc: u64 = 0;
    let mut j: usize = 24;
    while j < 32
        invariant
            24 <= j <= 32,
            pos + 32 <= data@.len(),
            pos + 32 <= dlen,
            w == data@.subrange(pos as int, pos + 32),
            forall|p: int| 0 <= p < 24 ==> w[p] == 0,
            acc as nat == be_val(w.subrange(0, j as int)),
            (acc as nat) < pow256((j - 24) as nat),
        decreases 32 - j,
    {
        let b = data[pos + j];
        proof {
            assert(w.subrange(0, j + 1).drop_last() =~= w.subrange(0, j as int));
            assert(w.subrange(0, j + 1).last() == w[j as int]);
            assert(pow256((j + 1 - 24) as nat) == 256 * pow256((j - 24) as nat));
            lemma_pow256_8();
            lemma_pow256_mono((j + 1 - 24) as nat, 8);
        }
        acc = acc * 256 + (b as u64);
        j = j + 1;
    }
    proof {
        assert(w.subrange(0, 32) =~= w);
    }
    if acc <= (usize::MAX as u64) {
        Some(acc as usize)
    } else {
        None
    }
}

pub proof fn lemma_be_val_zeros(s: Seq<u8>)
    requires
        forall|p: int| 0 <= p < s.len() ==> s[p] == 0,
    ensures
        be_val(s) == 0,
    decreases s.len(),
{
    if s.len() > 0 {
        lemma_be_val_zeros(s.drop_last());
    }
}

} // verus!
