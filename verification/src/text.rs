//! Primitives over file names that the rotation rules are stated with:
//! decimal digit strings, searching a name for a character, prefix tests,
//! and the lexicographic ordering that decides which generations are kept.

use vstd::prelude::*;

verus! {

// ---------------------------------------------------------------------------
// Decimal digit strings
// ---------------------------------------------------------------------------

/// Is `c` one of the ten ASCII decimal digits?
pub open spec fn is_digit(c: char) -> bool {
    48 <= c as u32 <= 57
}

/// The numeric value of a single decimal digit.
pub open spec fn digit_val(c: char) -> nat {
    (c as u32 - 48) as nat
}

/// Does `s` consist of decimal digits only?
pub open spec fn all_digits(s: Seq<char>) -> bool {
    forall|i: int| 0 <= i < s.len() ==> is_digit(#[trigger] s[i])
}

/// The numeric value of a digit string, most significant digit first.
/// Leading zeros are accepted and do not change the value.
pub open spec fn digits_val(s: Seq<char>) -> nat
    decreases s.len(),
{
    if s.len() == 0 {
        0
    } else {
        digits_val(s.drop_last()) * 10 + digit_val(s.last())
    }
}

/// A digit string parses as a `usize`: it is non-empty, all digits, and its
/// value fits the machine word.
pub open spec fn parses_as_usize(s: Seq<char>) -> bool {
    s.len() > 0 && all_digits(s) && digits_val(s) <= usize::MAX as nat
}

/// The decimal digit with value `n`.
pub open spec fn digit_char(n: nat) -> char {
    if n == 0 {
        '0'
    } else if n == 1 {
        '1'
    } else if n == 2 {
        '2'
    } else if n == 3 {
        '3'
    } else if n == 4 {
        '4'
    } else if n == 5 {
        '5'
    } else if n == 6 {
        '6'
    } else if n == 7 {
        '7'
    } else if n == 8 {
        '8'
    } else {
        '9'
    }
}

/// The canonical decimal rendering of `n`: no sign, no leading zeros.
pub open spec fn dec_rep(n: nat) -> Seq<char>
    decreases n,
{
    if n < 10 {
        seq![digit_char(n)]
    } else {
        dec_rep(n / 10).push(digit_char(n % 10))
    }
}

/// The decimal rendering consists of digits only and is never empty.
pub proof fn lemma_dec_rep_digits(n: nat)
    ensures
        dec_rep(n).len() >= 1,
        all_digits(dec_rep(n)),
    decreases n,
{
    if n < 10 {
        assert(is_digit(digit_char(n)));
    } else {
        lemma_dec_rep_digits(n / 10);
        assert(is_digit(digit_char(n % 10)));
        assert forall|i: int| 0 <= i < dec_rep(n).len() implies is_digit(#[trigger] dec_rep(n)[i]) by {
            if i < dec_rep(n / 10).len() {
                assert(dec_rep(n)[i] == dec_rep(n / 10)[i]);
            }
        }
    }
}

/// Parsing the decimal rendering of `n` gives back `n`.
pub proof fn lemma_dec_rep_val(n: nat)
    ensures
        digits_val(dec_rep(n)) == n,
    decreases n,
{
    if n < 10 {
        assert(dec_rep(n).drop_last() =~= Seq::<char>::empty());
        assert(digits_val(Seq::<char>::empty()) == 0);
        assert(dec_rep(n).last() == digit_char(n));
        assert(digit_val(digit_char(n)) == n);
    } else {
        lemma_dec_rep_val(n / 10);
        assert(dec_rep(n).drop_last() =~= dec_rep(n / 10));
        assert(digit_val(digit_char(n % 10)) == n % 10);
        vstd::arithmetic::div_mod::lemma_fundamental_div_mod(n as int, 10);
    }
}

/// The value of a digit string bounds the value of each of its prefixes.
pub proof fn lemma_digits_val_prefix_le(s: Seq<char>, i: int)
    requires
        0 <= i <= s.len(),
    ensures
        digits_val(s.take(i)) <= digits_val(s),
    decreases s.len() - i,
{
    if i == s.len() {
        assert(s.take(i) =~= s);
    } else {
        lemma_digits_val_prefix_le(s, i + 1);
        assert(s.take(i + 1).drop_last() =~= s.take(i));
        assert(digits_val(s.take(i + 1)) == digits_val(s.take(i)) * 10 + digit_val(
            s.take(i + 1).last(),
        ));
    }
}

/// The decimal digit `d` as a string slice.
fn digit_str(d: usize) -> (r: &'static str)
    requires
        d < 10,
    ensures
        r@ =~= seq![digit_char(d as nat)],
{
    proof {
        reveal_strlit("0");
        reveal_strlit("1");
        reveal_strlit("2");
        reveal_strlit("3");
        reveal_strlit("4");
        reveal_strlit("5");
        reveal_strlit("6");
        reveal_strlit("7");
        reveal_strlit("8");
        reveal_strlit("9");
    }
    match d {
        0 => "0",
        1 => "1",
        2 => "2",
        3 => "3",
        4 => "4",
        5 => "5",
        6 => "6",
        7 => "7",
        8 => "8",
        _ => "9",
    }
}

/// Renders `n` in decimal.
pub fn to_decimal(n: usize) -> (r: String)
    ensures
        r@ == dec_rep(n as nat),
    decreases n,
{
    if n < 10 {
        String::from_str(digit_str(n))
    } else {
        let r = to_decimal(n / 10);
        let r = r.concat(digit_str(n % 10));
        proof {
            assert(r@ =~= dec_rep(n as nat / 10).push(digit_char(n as nat % 10)));
        }
        r
    }
}

/// Parses a decimal digit string; `None` when the string is empty, holds a
/// non-digit character, or its value does not fit in a `usize`.
pub fn parse_usize(s: &str) -> (r: Option<usize>)
    ensures
        match r {
            Some(n) => parses_as_usize(s@) && n as nat == digits_val(s@),
            None => !parses_as_usize(s@),
        },
{
    let len = s.unicode_len();
    if len == 0 {
        return None;
    }
    let mut val: usize = 0;
    let mut i: usize = 0;
    while i < len
        invariant
            0 <= i <= len,
            len == s@.len(),
            all_digits(s@.take(i as int)),
            val as nat == digits_val(s@.take(i as int)),
        decreases len - i,
    {
        let c = s.get_char(i);
        let u = c as u32;
        if !(48 <= u && u <= 57) {
            assert(!is_digit(s@[i as int]));
            return None;
        }
        let d = (u - 48) as usize;
        proof {
            assert(s@.take(i as int + 1).drop_last() =~= s@.take(i as int));
            assert(s@.take(i as int + 1).last() == s@[i as int]);
        }
        let next = match val.checked_mul(10) {
            Some(v) => v.checked_add(d),
            None => None,
        };
        match next {
            Some(v) => {
                val = v;
            },
            None => {
                proof {
                    assert(digits_val(s@.take(i as int + 1)) > usize::MAX as nat);
                    lemma_digits_val_prefix_le(s@, i as int + 1);
                }
                return None;
            },
        }
        assert forall|k: int| 0 <= k < i as int + 1 implies is_digit(
            #[trigger] s@.take(i as int + 1)[k],
        ) by {
            if k < i as int {
                assert(is_digit(s@.take(i as int)[k]));
            } else {
                assert(is_digit(s@[i as int]));
            }
        }
        i += 1;
    }
    proof {
        assert(s@.take(len as int) =~= s@);
    }
    Some(val)
}

// ---------------------------------------------------------------------------
// Searching a name for a character
// ---------------------------------------------------------------------------

/// The largest index at which `c` occurs in `s`, or -1 when it does not.
pub open spec fn last_index_of(s: Seq<char>, c: char) -> int
    decreases s.len(),
{
    if s.len() == 0 {
        -1
    } else if s.last() == c {
        s.len() - 1
    } else {
        last_index_of(s.drop_last(), c)
    }
}

/// The smallest index at which `c` occurs in `s`, or -1 when it does not.
pub open spec fn first_index_of(s: Seq<char>, c: char) -> int
    decreases s.len(),
{
    if s.len() == 0 {
        -1
    } else if s[0] == c {
        0
    } else if first_index_of(s.skip(1), c) == -1 {
        -1
    } else {
        first_index_of(s.skip(1), c) + 1
    }
}

/// What `last_index_of` returns: the index of the last occurrence, with no
/// occurrence after it, or -1 when `c` does not occur at all.
pub proof fn lemma_last_index_of(s: Seq<char>, c: char)
    ensures
        -1 <= last_index_of(s, c) < s.len(),
        last_index_of(s, c) >= 0 ==> s[last_index_of(s, c)] == c,
        forall|k: int| last_index_of(s, c) < k < s.len() ==> s[k] != c,
        last_index_of(s, c) == -1 ==> forall|k: int| 0 <= k < s.len() ==> s[k] != c,
    decreases s.len(),
{
    if s.len() == 0 {
    } else if s.last() == c {
    } else {
        lemma_last_index_of(s.drop_last(), c);
        assert(forall|k: int| 0 <= k < s.len() - 1 ==> s[k] == s.drop_last()[k]);
    }
}

/// What `first_index_of` returns: the index of the first occurrence, with no
/// occurrence before it, or -1 when `c` does not occur at all.
pub proof fn lemma_first_index_of(s: Seq<char>, c: char)
    ensures
        -1 <= first_index_of(s, c) < s.len(),
        first_index_of(s, c) >= 0 ==> s[first_index_of(s, c)] == c,
        forall|k: int| 0 <= k < first_index_of(s, c) ==> s[k] != c,
        first_index_of(s, c) == -1 ==> forall|k: int| 0 <= k < s.len() ==> s[k] != c,
    decreases s.len(),
{
    if s.len() == 0 {
    } else if s[0] == c {
    } else {
        lemma_first_index_of(s.skip(1), c);
        assert(forall|k: int| 1 <= k < s.len() ==> s[k] == s.skip(1)[k - 1]);
    }
}

/// Finds the last occurrence of `c` in `s`.
pub fn find_last(s: &str, c: char) -> (r: Option<usize>)
    ensures
        match r {
            Some(i) => last_index_of(s@, c) == i as int,
            None => last_index_of(s@, c) == -1,
        },
{
    let len = s.unicode_len();
    proof {
        assert(s@.take(len as int) =~= s@);
    }
    let mut i = len;
    while i > 0
        invariant
            i <= len,
            len == s@.len(),
            last_index_of(s@, c) == last_index_of(s@.take(i as int), c),
        decreases i,
    {
        let ch = s.get_char(i - 1);
        proof {
            assert(s@.take(i as int).last() == s@[i as int - 1]);
            assert(s@.take(i as int).drop_last() =~= s@.take(i as int - 1));
        }
        if ch == c {
            return Some(i - 1);
        }
        i -= 1;
    }
    proof {
        assert(s@.take(0).len() == 0);
    }
    None
}

/// Finds the first occurrence of `c` in `s`.
pub fn find_first(s: &str, c: char) -> (r: Option<usize>)
    ensures
        match r {
            Some(i) => first_index_of(s@, c) == i as int,
            None => first_index_of(s@, c) == -1,
        },
{
    let len = s.unicode_len();
    let mut i: usize = 0;
    while i < len
        invariant
            0 <= i <= len,
            len == s@.len(),
            forall|k: int| 0 <= k < i ==> s@[k] != c,
        decreases len - i,
    {
        let ch = s.get_char(i);
        if ch == c {
            proof {
                lemma_first_index_of(s@, c);
                let f = first_index_of(s@, c);
                assert(f >= 0) by {
                    if f == -1 {
                        assert(s@[i as int] != c);
                    }
                }
                assert(f == i as int) by {
                    if f < i as int {
                        assert(s@[f] != c);
                    }
                    if f > i as int {
                        assert(s@[i as int] != c);
                    }
                }
            }
            return Some(i);
        }
        i += 1;
    }
    proof {
        lemma_first_index_of(s@, c);
        let f = first_index_of(s@, c);
        if f >= 0 {
            assert(s@[f] != c);
        }
    }
    None
}

// ---------------------------------------------------------------------------
// Prefix test and lexicographic order
// ---------------------------------------------------------------------------

/// Does `s` start with `p`?
pub fn str_starts_with(s: &str, p: &str) -> (r: bool)
    ensures
        r == p@.is_prefix_of(s@),
{
    let plen = p.unicode_len();
    let slen = s.unicode_len();
    if plen > slen {
        return false;
    }
    let mut i: usize = 0;
    while i < plen
        invariant
            0 <= i <= plen,
            plen == p@.len(),
            slen == s@.len(),
            plen <= slen,
            forall|k: int| 0 <= k < i ==> p@[k] == s@[k],
        decreases plen - i,
    {
        let pc = p.get_char(i);
        let sc = s.get_char(i);
        if pc != sc {
            proof {
                assert(p@[i as int] != s@.subrange(0, plen as int)[i as int]);
            }
            return false;
        }
        i += 1;
    }
    proof {
        assert(p@ =~= s@.subrange(0, plen as int));
    }
    true
}

/// Lexicographic order on character sequences, by code point: the order in
/// which destination names are sorted.
pub open spec fn lex_le(a: Seq<char>, b: Seq<char>) -> bool
    decreases a.len(),
{
    if a.len() == 0 {
        true
    } else if b.len() == 0 {
        false
    } else if (a[0] as u32) < (b[0] as u32) {
        true
    } else if (b[0] as u32) < (a[0] as u32) {
        false
    } else {
        lex_le(a.skip(1), b.skip(1))
    }
}

/// Strict lexicographic order.
pub open spec fn lex_lt(a: Seq<char>, b: Seq<char>) -> bool {
    !lex_le(b, a)
}

/// The order is total: of two names, one is less than or equal to the other.
pub proof fn lemma_lex_le_total(a: Seq<char>, b: Seq<char>)
    ensures
        lex_le(a, b) || lex_le(b, a),
    decreases a.len(),
{
    if a.len() == 0 || b.len() == 0 {
    } else if (a[0] as u32) < (b[0] as u32) || (b[0] as u32) < (a[0] as u32) {
    } else {
        lemma_lex_le_total(a.skip(1), b.skip(1));
    }
}

/// The order is transitive.
pub proof fn lemma_lex_le_trans(a: Seq<char>, b: Seq<char>, c: Seq<char>)
    requires
        lex_le(a, b),
        lex_le(b, c),
    ensures
        lex_le(a, c),
    decreases a.len(),
{
    if a.len() == 0 {
    } else {
        if b.len() == 0 {
        } else if c.len() == 0 {
        } else if (a[0] as u32) < (c[0] as u32) {
        } else {
            lemma_lex_le_trans(a.skip(1), b.skip(1), c.skip(1));
        }
    }
}

/// Compares two names in lexicographic order.
pub fn str_le(a: &str, b: &str) -> (r: bool)
    ensures
        r == lex_le(a@, b@),
{
    let alen = a.unicode_len();
    let blen = b.unicode_len();
    proof {
        assert(a@.skip(0) =~= a@);
        assert(b@.skip(0) =~= b@);
    }
    let mut i: usize = 0;
    while i < alen && i < blen
        invariant
            0 <= i <= alen,
            0 <= i <= blen,
            alen == a@.len(),
            blen == b@.len(),
            lex_le(a@, b@) == lex_le(a@.skip(i as int), b@.skip(i as int)),
        decreases alen - i,
    {
        let ca = a.get_char(i);
        let cb = b.get_char(i);
        proof {
            assert(a@.skip(i as int)[0] == a@[i as int]);
            assert(b@.skip(i as int)[0] == b@[i as int]);
        }
        if (ca as u32) < (cb as u32) {
            return true;
        }
        if (cb as u32) < (ca as u32) {
            return false;
        }
        proof {
            assert(a@.skip(i as int).skip(1) =~= a@.skip(i as int + 1));
            assert(b@.skip(i as int).skip(1) =~= b@.skip(i as int + 1));
        }
        i += 1;
    }
    if i == alen {
        proof {
            assert(a@.skip(i as int).len() == 0);
        }
        true
    } else {
        proof {
            assert(b@.skip(i as int).len() == 0);
            assert(a@.skip(i as int).len() > 0);
        }
        false
    }
}

/// Compares two names strictly.
pub fn str_lt(a: &str, b: &str) -> (r: bool)
    ensures
        r == lex_lt(a@, b@),
{
    !str_le(b, a)
}

} // verus!
