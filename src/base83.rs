//! Fixed-width base-83 numerals over the 83-symbol hash alphabet.
use vstd::prelude::*;
use vstd::string::*;

verus! {

/// The 83 symbols of the hash alphabet; the symbol at index `d` stands for digit `d`.
pub open spec fn base83_alphabet() -> Seq<char> {
    seq![
        '0', '1', '2', '3', '4', '5', '6', '7', '8', '9', 'A', 'B',
        'C', 'D', 'E', 'F', 'G', 'H', 'I', 'J', 'K', 'L', 'M', 'N',
        'O', 'P', 'Q', 'R', 'S', 'T', 'U', 'V', 'W', 'X', 'Y', 'Z',
        'a', 'b', 'c', 'd', 'e', 'f', 'g', 'h', 'i', 'j', 'k', 'l',
        'm', 'n', 'o', 'p', 'q', 'r', 's', 't', 'u', 'v', 'w', 'x',
        'y', 'z', '#', '$', '%', '*', '+', ',', '-', '.', ':', ';',
        '=', '?', '@', '[', ']', '^', '_', '{', '|', '}', '~',
    ]
}

/// Whether `c` is one of the symbols of the hash alphabet.
pub open spec fn is_base83_symbol(c: char) -> bool {
    exists|d: int| 0 <= d < 83 && base83_alphabet()[d] == c
}

/// The digit that a symbol of the alphabet stands for.
pub open spec fn symbol_digit(c: char) -> int {
    choose|d: int| 0 <= d < 83 && base83_alphabet()[d] == c
}

/// The number that a base-83 numeral stands for, most significant digit first.
pub open spec fn base83_value(s: Seq<char>) -> int
    decreases s.len(),
{
    if s.len() == 0 {
        0
    } else {
        base83_value(s.drop_last()) * 83 + symbol_digit(s.last())
    }
}

/// `83` raised to the power `n`.
pub open spec fn pow83(n: nat) -> nat
    decreases n,
{
    if n == 0 {
        1
    } else {
        83 * pow83((n - 1) as nat)
    }
}

/// Digit `k`, counted from the left, of `value` written in `length` base-83 places.
pub open spec fn base83_digit(value: nat, length: nat, k: int) -> nat {
    (value / pow83((length - 1 - k) as nat)) % 83
}

/// `value` written in exactly `length` base-83 symbols, most significant first.
/// Digits above the last place are dropped, so the numeral stands for
/// `value % pow83(length)`.
pub open spec fn base83_encoding(value: nat, length: nat) -> Seq<char> {
    Seq::new(length, |k: int| base83_alphabet()[base83_digit(value, length, k) as int])
}

pub proof fn lemma_pow83_positive(n: nat)
    ensures
        pow83(n) >= 1,
    decreases n,
{
    if n > 0 {
        lemma_pow83_positive((n - 1) as nat);
    }
}

/// No symbol occurs twice in the alphabet.
pub proof fn lemma_alphabet_distinct()
    ensures
        forall|i: int, j: int|
            0 <= i < 83 && 0 <= j < 83 && i != j ==> base83_alphabet()[i] != base83_alphabet()[j],
{
}

/// Each symbol of the alphabet stands for its own index.
pub proof fn lemma_symbol_digit(d: int)
    requires
        0 <= d < 83,
    ensures
        is_base83_symbol(base83_alphabet()[d]),
        symbol_digit(base83_alphabet()[d]) == d,
{
    lemma_alphabet_distinct();
    let c = base83_alphabet()[d];
    assert(is_base83_symbol(c));
}

/// Dividing by 83 `k` times, then once more, is dividing by `pow83(k + 1)`.
proof fn lemma_div_pow83_step(value: nat, k: nat)
    ensures
        (value / pow83(k)) / 83 == value / pow83(k + 1),
{
    lemma_pow83_positive(k);
    vstd::arithmetic::div_mod::lemma_div_denominator(value as int, pow83(k) as int, 83);
    assert(pow83(k + 1) == pow83(k) * 83) by (nonlinear_arith)
        requires
            pow83(k + 1) == 83 * pow83(k),
    ;
}

/// Dropping the last symbol of a numeral is dividing its value by 83.
proof fn lemma_encoding_drop_last(value: nat, length: nat)
    requires
        length >= 1,
    ensures
        base83_encoding(value, length).drop_last() =~= base83_encoding(value / 83, (length - 1) as nat),
        base83_encoding(value, length).last() == base83_alphabet()[(value % 83) as int],
{
    let m = (length - 1) as nat;
    assert forall|k: int| 0 <= k < m implies base83_digit(value, length, k) == base83_digit(
        value / 83,
        m,
        k,
    ) by {
        let e = (m - 1 - k) as nat;
        lemma_div_pow83_step(value, e);
        lemma_pow83_positive(e);
        vstd::arithmetic::div_mod::lemma_div_denominator(value as int, 83, pow83(e) as int);
        vstd::arithmetic::div_mod::lemma_div_denominator(value as int, pow83(e) as int, 83);
        assert(83 * pow83(e) == pow83(e) * 83) by (nonlinear_arith);
    }
    assert(pow83(0) == 1);
    assert(((length - 1 - (length - 1)) as nat) == 0);
    assert(value / 1 == value);
    assert(base83_digit(value, length, length - 1) == value % 83);
}

/// Reading back a numeral of `length` symbols gives the value it was written
/// from, reduced modulo `pow83(length)`; in particular every value below
/// `pow83(length)` is recovered exactly.
pub proof fn lemma_base83_round_trip(value: nat, length: nat)
    ensures
        base83_value(base83_encoding(value, length)) == value % pow83(length),
        value < pow83(length) ==> base83_value(base83_encoding(value, length)) == value,
        forall|k: int| 0 <= k < length ==> is_base83_symbol(#[trigger] base83_encoding(value, length)[k]),
    decreases length,
{
    let enc = base83_encoding(value, length);
    assert forall|k: int| 0 <= k < length implies is_base83_symbol(#[trigger] enc[k]) by {
        lemma_symbol_digit(base83_digit(value, length, k) as int);
    }
    if length == 0 {
        assert(pow83(0) == 1);
    } else {
        let m = (length - 1) as nat;
        lemma_encoding_drop_last(value, length);
        lemma_base83_round_trip(value / 83, m);
        lemma_symbol_digit((value % 83) as int);
        lemma_pow83_positive(m);
        vstd::arithmetic::div_mod::lemma_mod_breakdown(value as int, 83, pow83(m) as int);
        assert(83 * ((value / 83) % pow83(m)) == ((value / 83) % pow83(m)) * 83) by (nonlinear_arith);
    }
    if value < pow83(length) {
        lemma_pow83_positive(length);
        vstd::arithmetic::div_mod::lemma_small_mod(value, pow83(length));
    }
}

/// Zero, in any width, is written with the alphabet's first symbol only.
pub proof fn lemma_encode_zero(length: nat)
    ensures
        base83_encoding(0, length) =~= Seq::new(length, |k: int| '0'),
{
    assert forall|k: int| 0 <= k < length implies base83_digit(0, length, k) == 0 by {
        lemma_pow83_positive((length - 1 - k) as nat);
    }
}

/// Renders `value` as `length` symbols of the hash alphabet, most significant
/// digit first; digits above the last place are dropped.
pub fn encode_base83(value: u32, length: usize) -> (r: String)
    ensures
        r@ == base83_encoding(value as nat, length as nat),
        r@.len() == length,
{
    // Digits, least significant first.
    let mut low_first: Vec<u32> = Vec::new();
    let mut rest: u32 = value;
    let mut k: usize = 0;
    assert(pow83(0) == 1);
    while k < length
        invariant
            k <= length,
            low_first@.len() == k,
            rest as nat == value as nat / pow83(k as nat),
            forall|t: int|
                0 <= t < k ==> #[trigger] low_first@[t] as nat == (value as nat / pow83(t as nat))
                    % 83,
        decreases length - k,
    {
        proof {
            lemma_div_pow83_step(value as nat, k as nat);
        }
        low_first.push(rest % 83);
        rest = rest / 83;
        k = k + 1;
    }
    let symbols = "0123456789ABCDEFGHIJKLMNOPQRSTUVWXYZabcdefghijklmnopqrstuvwxyz#$%*+,-.:;=?@[]^_{|}~";
    proof {
        reveal_strlit("0123456789ABCDEFGHIJKLMNOPQRSTUVWXYZabcdefghijklmnopqrstuvwxyz#$%*+,-.:;=?@[]^_{|}~");
        assert(symbols@ =~= base83_alphabet());
    }
    let mut out = String::new();
    let mut left: usize = length;
    while left > 0
        invariant
            left <= length,
            low_first@.len() == length,
            symbols@ == base83_alphabet(),
            forall|t: int|
                0 <= t < length ==> #[trigger] low_first@[t] as nat == (value as nat / pow83(t as nat))
                    % 83,
            out@ == base83_encoding(value as nat, length as nat).subrange(0, length - left),
        decreases left,
    {
        left = left - 1;
        let d = low_first[left] as usize;
        let piece = symbols.substring_char(d, d + 1);
        proof {
            let enc = base83_encoding(value as nat, length as nat);
            assert(enc[length - 1 - left] == base83_alphabet()[d as int]);
            assert(piece@ =~= seq![base83_alphabet()[d as int]]);
            assert(enc.subrange(0, length - left) =~= enc.subrange(0, length - 1 - left).push(
                enc[length - 1 - left],
            ));
        }
        out.append(piece);
    }
    assert(out@ =~= base83_encoding(value as nat, length as nat));
    out
}

/// Whether every symbol of `s` belongs to the alphabet.
pub open spec fn all_base83_symbols(s: Seq<char>) -> bool {
    forall|k: int| 0 <= k < s.len() ==> is_base83_symbol(#[trigger] s[k])
}

/// Over the alphabet, a numeral is worth at least any of its prefixes.
proof fn lemma_value_prefix_bound(s: Seq<char>, i: int)
    requires
        all_base83_symbols(s),
        0 <= i <= s.len(),
    ensures
        0 <= base83_value(s.subrange(0, i)) <= base83_value(s),
    decreases s.len(),
{
    if s.len() > 0 {
        let p = s.drop_last();
        assert(all_base83_symbols(p));
        assert(is_base83_symbol(s[s.len() - 1]));
        lemma_value_prefix_bound(p, if i == s.len() { p.len() as int } else { i });
        if i == s.len() {
            assert(s.subrange(0, i) =~= s);
        } else {
            assert(s.subrange(0, i) =~= p.subrange(0, i));
        }
    } else {
        assert(s.subrange(0, i) =~= s);
    }
}

/// The digit that `c` stands for, or `None` when `c` is not in the alphabet.
fn digit_of_symbol(c: char) -> (r: Option<u32>)
    ensures
        r == (if is_base83_symbol(c) {
            Some(symbol_digit(c) as u32)
        } else {
            None::<u32>
        }),
{
    let symbols = "0123456789ABCDEFGHIJKLMNOPQRSTUVWXYZabcdefghijklmnopqrstuvwxyz#$%*+,-.:;=?@[]^_{|}~";
    proof {
        reveal_strlit("0123456789ABCDEFGHIJKLMNOPQRSTUVWXYZabcdefghijklmnopqrstuvwxyz#$%*+,-.:;=?@[]^_{|}~");
        assert(symbols@ =~= base83_alphabet());
    }
    let mut d: usize = 0;
    while d < 83
        invariant
            d <= 83,
            symbols@ == base83_alphabet(),
            forall|t: int| 0 <= t < d ==> base83_alphabet()[t] != c,
        decreases 83 - d,
    {
        if symbols.get_char(d) == c {
            proof {
                lemma_symbol_digit(d as int);
            }
            return Some(d as u32);
        }
        d = d + 1;
    }
    None
}

/// Reads a base-83 numeral, most significant symbol first. The result is
/// `None` when a symbol lies outside the alphabet or the value exceeds `u32`.
pub fn decode_base83(s: &str) -> (r: Option<u32>)
    ensures
        r == (if all_base83_symbols(s@) && base83_value(s@) <= u32::MAX {
            Some(base83_value(s@) as u32)
        } else {
            None::<u32>
        }),
{
    let n = s.unicode_len();
    let mut acc: u64 = 0;
    let mut i: usize = 0;
    assert(s@.subrange(0, 0) =~= Seq::<char>::empty());
    while i < n
        invariant
            n == s@.len(),
            i <= n,
            all_base83_symbols(s@.subrange(0, i as int)),
            acc as int == base83_value(s@.subrange(0, i as int)),
            acc <= u32::MAX,
        decreases n - i,
    {
        let c = s.get_char(i);
        let d = match digit_of_symbol(c) {
            Some(d) => d,
            None => {
                assert(!all_base83_symbols(s@));
                return None;
            },
        };
        proof {
            let p = s@.subrange(0, i as int + 1);
            assert(p.drop_last() =~= s@.subrange(0, i as int));
            assert(all_base83_symbols(p));
        }
        let next: u64 = acc * 83 + d as u64;
        if next > 0xffff_ffff {
            proof {
                if all_base83_symbols(s@) {
                    lemma_value_prefix_bound(s@, i as int + 1);
                }
            }
            return None;
        }
        acc = next;
        i = i + 1;
    }
    assert(s@.subrange(0, n as int) =~= s@);
    Some(acc as u32)
}

} // verus!
