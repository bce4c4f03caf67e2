//! The Internet checksum (RFC 1071): the one's complement of the
//! one's-complement sum of a buffer's big-endian 16-bit words.
use vstd::arithmetic::div_mod::{
    lemma_add_mod_noop,
    lemma_fundamental_div_mod,
    lemma_mod_multiples_vanish,
};
use vstd::prelude::*;

verus! {

/// The modulus of one's-complement 16-bit arithmetic.
pub open spec fn ones_modulus() -> nat {
    0xFFFF
}

/// Number of 16-bit words in `s`: pairs of bytes, plus one for a trailing byte.
pub open spec fn word_count(s: Seq<u8>) -> nat {
    ((s.len() + 1) / 2) as nat
}

/// The `i`-th big-endian word of `s`. A lone trailing byte is the high byte of
/// a word whose low byte is zero.
pub open spec fn word_at(s: Seq<u8>, i: int) -> nat {
    let hi = s[2 * i] as nat;
    let lo = if 2 * i + 1 < s.len() {
        s[2 * i + 1] as nat
    } else {
        0
    };
    hi * 256 + lo
}

/// Plain sum of the first `k` words of `s`.
pub open spec fn sum_words(s: Seq<u8>, k: nat) -> nat
    decreases k,
{
    if k == 0 {
        0
    } else {
        sum_words(s, (k - 1) as nat) + word_at(s, k - 1)
    }
}

/// Plain sum of all words of `s`.
pub open spec fn word_sum(s: Seq<u8>) -> nat {
    sum_words(s, word_count(s))
}

/// Adds the bits above bit 15 back into the low 16 bits, until nothing is
/// left above bit 15.
pub open spec fn fold_carries(x: nat) -> nat
    decreases x,
{
    if x < 0x10000 {
        x
    } else {
        fold_carries(x % 0x10000 + x / 0x10000)
    }
}

/// The Internet checksum of `s`: `0xFFFF` for an empty buffer, otherwise the
/// one's complement of the folded word sum.
pub open spec fn internet_checksum(s: Seq<u8>) -> u16 {
    if s.len() == 0 {
        0xFFFF
    } else {
        (0xFFFF - fold_carries(word_sum(s))) as u16
    }
}

/// The value of `x` in one's-complement 16-bit arithmetic: zero only for zero,
/// otherwise the representative of `x` modulo `0xFFFF` in `1..=0xFFFF`.
pub open spec fn ones_value(x: nat) -> nat {
    if x == 0 {
        0
    } else if x % ones_modulus() == 0 {
        ones_modulus()
    } else {
        x % ones_modulus()
    }
}

/// `a` and `b` have the same one's-complement value.
pub open spec fn ones_equiv(a: nat, b: nat) -> bool {
    &&& a % ones_modulus() == b % ones_modulus()
    &&& (a == 0 <==> b == 0)
}

proof fn lemma_ones_equiv_value(a: nat, b: nat)
    requires
        ones_equiv(a, b),
    ensures
        ones_value(a) == ones_value(b),
{
}

proof fn lemma_ones_equiv_add(a: nat, b: nat, w: nat)
    requires
        ones_equiv(a, b),
    ensures
        ones_equiv(a + w, b + w),
{
    lemma_add_mod_noop(a as int, w as int, 0xFFFF);
    lemma_add_mod_noop(b as int, w as int, 0xFFFF);
}

/// One carry fold keeps the one's-complement value.
proof fn lemma_fold_once(x: nat)
    requires
        x >= 0x10000,
    ensures
        ones_equiv(x % 0x10000 + x / 0x10000, x),
        x % 0x10000 + x / 0x10000 < x,
{
    let q = x / 0x10000;
    let r = x % 0x10000;
    lemma_fundamental_div_mod(x as int, 0x10000);
    assert(q >= 1);
    assert(x == 0xFFFF * q + (q + r));
    lemma_mod_multiples_vanish(q as int, (q + r) as int, 0xFFFF);
}

/// Folding carries computes the one's-complement value.
pub proof fn lemma_fold_carries_value(x: nat)
    ensures
        fold_carries(x) == ones_value(x),
        fold_carries(x) <= 0xFFFF,
    decreases x,
{
    if x >= 0x10000 {
        let y = x % 0x10000 + x / 0x10000;
        lemma_fold_once(x);
        lemma_fold_carries_value(y);
        lemma_ones_equiv_value(x, y);
    }
}

proof fn lemma_split_word(x: u32)
    ensures
        x & 0xFFFF == x % 0x10000,
        x >> 16 == x / 0x10000,
{
    assert(x & 0xFFFF == x % 0x10000) by (bit_vector);
    assert(x >> 16 == x / 0x10000) by (bit_vector);
}

/// Internet checksum (RFC 1071) of `buffer`.
///
/// The buffer is read as big-endian 16-bit words, a trailing odd byte being
/// the high byte of a zero-padded word. The words are summed with end-around
/// carry and the one's complement of the sum is returned. An empty buffer
/// gives `0xFFFF`. Total: any length, any content.
pub fn calculate_checksum(buffer: &[u8]) -> (r: u16)
    ensures
        r == internet_checksum(buffer@),
{
    let len = buffer.len();
    if len == 0 {
        return 0xFFFF;
    }
    let ghost s = buffer@;
    let pairs = len / 2;
    let mut sum: u32 = 0;
    let mut i: usize = 0;
    while i < pairs
        invariant
            s == buffer@,
            len == s.len(),
            pairs == len / 2,
            i <= pairs,
            ones_equiv(sum as nat, sum_words(s, i as nat)),
        decreases pairs - i,
    {
        if sum > 0xFFFF_0000 {
            proof {
                lemma_split_word(sum);
                lemma_fold_once(sum as nat);
            }
            sum = (sum & 0xFFFF) + (sum >> 16);
        }
        let word = (buffer[2 * i] as u32) * 256 + buffer[2 * i + 1] as u32;
        proof {
            assert(word as nat == word_at(s, i as int));
            lemma_ones_equiv_add(sum as nat, sum_words(s, i as nat), word as nat);
        }
        sum = sum + word;
        i = i + 1;
    }
    if len % 2 == 1 {
        if sum > 0xFFFF_0000 {
            proof {
                lemma_split_word(sum);
                lemma_fold_once(sum as nat);
            }
            sum = (sum & 0xFFFF) + (sum >> 16);
        }
        let word = (buffer[len - 1] as u32) * 256;
        proof {
            assert(word as nat == word_at(s, pairs as int));
            lemma_ones_equiv_add(sum as nat, sum_words(s, pairs as nat), word as nat);
        }
        sum = sum + word;
    }
    assert(ones_equiv(sum as nat, word_sum(s)));
    while (sum >> 16) != 0
        invariant
            ones_equiv(sum as nat, word_sum(s)),
        decreases sum,
    {
        proof {
            lemma_split_word(sum);
            lemma_fold_once(sum as nat);
        }
        sum = (sum & 0xFFFF) + (sum >> 16);
    }
    proof {
        lemma_split_word(sum);
        lemma_fold_carries_value(sum as nat);
        lemma_fold_carries_value(word_sum(s));
        lemma_ones_equiv_value(sum as nat, word_sum(s));
        assert(sum < 0x10000 ==> !(sum as u16) == (0xFFFF - sum) as u16) by (bit_vector);
    }
    !(sum as u16)
}

/// The two bytes of `c`, most significant first.
pub open spec fn be_bytes(c: u16) -> Seq<u8> {
    seq![(c / 256) as u8, (c % 256) as u8]
}

proof fn lemma_sum_words_extend(s: Seq<u8>, t: Seq<u8>, k: nat)
    requires
        s.len() % 2 == 0,
        2 * k <= s.len(),
        t.len() >= s.len(),
        forall|j: int| 0 <= j < s.len() ==> t[j] == s[j],
    ensures
        sum_words(t, k) == sum_words(s, k),
    decreases k,
{
    if k > 0 {
        lemma_sum_words_extend(s, t, (k - 1) as nat);
        assert(word_at(t, k - 1) == word_at(s, k - 1));
    }
}

/// Appending a buffer's checksum to it, most significant byte first, gives a
/// buffer whose checksum is zero. The buffer must have even length, so that
/// the appended field forms a word of its own.
pub proof fn lemma_checksum_self_verifies(s: Seq<u8>)
    requires
        s.len() % 2 == 0,
    ensures
        internet_checksum(s + be_bytes(internet_checksum(s))) == 0,
{
    let c = internet_checksum(s);
    let t = s + be_bytes(c);
    let n = word_count(s);
    let total = word_sum(s);
    lemma_sum_words_extend(s, t, n);
    assert(word_count(t) == n + 1);
    assert(word_at(t, n as int) == c);
    assert(word_sum(t) == total + c);
    lemma_fold_carries_value(total);
    lemma_fold_carries_value((total + c) as nat);
    if s.len() > 0 && total > 0 {
        let m = 0xFFFFint;
        lemma_fundamental_div_mod(total as int, m);
        let q = total as int / m;
        let sum = (total + c) as nat;
        if total as int % m == 0 {
            assert(sum == m * q + 0);
            lemma_mod_multiples_vanish(q, 0, m);
        } else {
            assert(sum == m * (q + 1) + 0);
            lemma_mod_multiples_vanish(q + 1, 0, m);
        }
        assert(ones_value(sum) == m);
    }
}

/// The checksum is a function of the buffer's contents alone: equal buffers
/// have equal checksums.
pub proof fn lemma_checksum_deterministic(a: Seq<u8>, b: Seq<u8>)
    requires
        a == b,
    ensures
        internet_checksum(a) == internet_checksum(b),
{
}

/// `s` with the bytes at `i` and `j` exchanged.
pub open spec fn swap_bytes(s: Seq<u8>, i: int, j: int) -> Seq<u8> {
    s.update(i, s[j]).update(j, s[i])
}

/// Weight of the byte at position `k` in the word sum: high bytes sit at even
/// positions.
pub open spec fn byte_weight(k: int) -> int {
    if k % 2 == 0 {
        256
    } else {
        1
    }
}

proof fn lemma_sum_words_update(s: Seq<u8>, k: int, v: u8, n: nat)
    requires
        0 <= k < s.len(),
        n <= word_count(s),
    ensures
        sum_words(s.update(k, v), n) as int == sum_words(s, n) as int + (if k / 2 < n {
            (v as int - s[k] as int) * byte_weight(k)
        } else {
            0
        }),
    decreases n,
{
    let t = s.update(k, v);
    if n > 0 {
        lemma_sum_words_update(s, k, v, (n - 1) as nat);
        let w = n - 1;
        if k / 2 == w {
            if k % 2 == 0 {
                assert(k == 2 * w);
            } else {
                assert(k == 2 * w + 1);
            }
            assert(word_at(t, w) as int == word_at(s, w) as int + (v as int - s[k] as int)
                * byte_weight(k));
        } else {
            assert(word_at(t, w) == word_at(s, w));
        }
    }
}

/// Exchanging a high byte with a low byte of a different value always
/// changes the checksum.
pub proof fn lemma_swap_across_halves_changes_checksum(s: Seq<u8>, i: int, j: int)
    requires
        0 <= i < s.len(),
        0 <= j < s.len(),
        i % 2 == 0,
        j % 2 == 1,
        s[i] != s[j],
    ensures
        internet_checksum(swap_bytes(s, i, j)) != internet_checksum(s),
{
    let a = s[i] as int;
    let b = s[j] as int;
    let t1 = s.update(i, s[j]);
    let t2 = t1.update(j, s[i]);
    let n = word_count(s);
    lemma_sum_words_update(s, i, s[j], n);
    lemma_sum_words_update(t1, j, s[i], n);
    let x = word_sum(s);
    let y = word_sum(t2);
    let d = b - a;
    assert(y as int == x as int + 255 * d);
    lemma_fold_carries_value(x);
    lemma_fold_carries_value(y);
    if ones_value(x) == ones_value(y) {
        let m = 0xFFFFint;
        assert(x != 0 && y != 0);
        assert(x as int % m == y as int % m);
        lemma_fundamental_div_mod(x as int, m);
        lemma_fundamental_div_mod(y as int, m);
        let k = y as int / m - x as int / m;
        assert(255 * d == m * k) by (nonlinear_arith)
            requires
                y as int == x as int + 255 * d,
                x as int == m * (x as int / m) + x as int % m,
                y as int == m * (y as int / m) + y as int % m,
                x as int % m == y as int % m,
                k == y as int / m - x as int / m,
        ;
        assert(d == 257 * k) by (nonlinear_arith)
            requires
                255 * d == m * k,
                m == 0xFFFF,
        ;
        assert(false) by (nonlinear_arith)
            requires
                d == 257 * k,
                d != 0,
                -255 <= d <= 255,
        ;
    }
}

/// Exchanging two high bytes, or two low bytes, never changes the checksum:
/// the sum does not see where in the buffer a word stands.
pub proof fn lemma_swap_within_halves_keeps_checksum(s: Seq<u8>, i: int, j: int)
    requires
        0 <= i < s.len(),
        0 <= j < s.len(),
        i % 2 == j % 2,
    ensures
        internet_checksum(swap_bytes(s, i, j)) == internet_checksum(s),
{
    let t1 = s.update(i, s[j]);
    let n = word_count(s);
    if i != j {
        lemma_sum_words_update(s, i, s[j], n);
        lemma_sum_words_update(t1, j, s[i], n);
        assert(byte_weight(i) == byte_weight(j));
        assert(word_sum(swap_bytes(s, i, j)) == word_sum(s));
    } else {
        assert(swap_bytes(s, i, j) =~= s);
    }
}

} // verus!
