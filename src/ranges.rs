//! Reading a command-line argument: one integer, or an inclusive range
//! written `A-B` or `A..B`.
use vstd::prelude::*;

verus! {

/// ASCII `0`.
pub const ZERO: u8 = 48;

/// ASCII `9`.
pub const NINE: u8 = 57;

/// ASCII `+`.
pub const PLUS: u8 = 43;

/// ASCII `-`.
pub const DASH: u8 = 45;

/// ASCII `.`.
pub const DOT: u8 = 46;

/// `b` is an ASCII decimal digit.
pub open spec fn is_digit(b: u8) -> bool {
    ZERO <= b <= NINE
}

/// The value of a run of decimal digits, most significant first.
pub open spec fn digits_value(s: Seq<u8>) -> nat
    decreases s.len(),
{
    if s.len() == 0 {
        0
    } else {
        digits_value(s.drop_last()) * 10 + (s.last() - ZERO) as nat
    }
}

/// The digits after an optional leading `+`.
pub open spec fn unsigned_digits(s: Seq<u8>) -> Seq<u8> {
    if s.len() > 0 && s[0] == PLUS {
        s.drop_first()
    } else {
        s
    }
}

/// The unsigned 128-bit integer that `s` writes: an optional `+`, then one
/// or more decimal digits, with a value that fits.
pub open spec fn number_text(s: Seq<u8>) -> Option<u128> {
    let d = unsigned_digits(s);
    if d.len() > 0 && (forall|i: int| 0 <= i < d.len() ==> is_digit(#[trigger] d[i]))
        && digits_value(d) <= u128::MAX {
        Some(digits_value(d) as u128)
    } else {
        None
    }
}

/// `p` is the position of the first `-` in `s`.
pub open spec fn first_dash(s: Seq<u8>, p: int) -> bool {
    &&& 0 <= p < s.len()
    &&& s[p] == DASH
    &&& forall|j: int| 0 <= j < p ==> #[trigger] s[j] != DASH
}

/// `p` is the position of the first `..` in `s`.
pub open spec fn first_dots(s: Seq<u8>, p: int) -> bool {
    &&& 0 <= p && p + 1 < s.len()
    &&& s[p] == DOT && s[p + 1] == DOT
    &&& forall|j: int| 0 <= j < p ==> !(#[trigger] s[j] == DOT && s[j + 1] == DOT)
}

/// Both ends, where both are numbers.
pub open spec fn both(lo: Option<u128>, hi: Option<u128>) -> Option<(u128, u128)> {
    match (lo, hi) {
        (Some(a), Some(b)) => Some((a, b)),
        _ => None,
    }
}

/// The range that an argument writes. It is split at its first `-` where it
/// has one, else at its first `..`; an argument with neither is a single
/// integer `n`, the range from `n` to `n`.
pub open spec fn range_text(s: Seq<u8>) -> Option<(u128, u128)> {
    if exists|p: int| first_dash(s, p) {
        let p = choose|p: int| first_dash(s, p);
        both(number_text(s.subrange(0, p)), number_text(s.subrange(p + 1, s.len() as int)))
    } else if exists|p: int| first_dots(s, p) {
        let p = choose|p: int| first_dots(s, p);
        both(number_text(s.subrange(0, p)), number_text(s.subrange(p + 2, s.len() as int)))
    } else {
        match number_text(s) {
            Some(n) => Some((n, n)),
            None => None,
        }
    }
}

proof fn lemma_digits_prefix(s: Seq<u8>, k: int)
    requires
        0 <= k <= s.len(),
    ensures
        digits_value(s.take(k)) <= digits_value(s),
    decreases s.len(),
{
    if k < s.len() {
        lemma_digits_prefix(s.drop_last(), k);
        assert(s.drop_last().take(k) =~= s.take(k));
    } else {
        assert(s.take(k) =~= s);
    }
}

/// The integer written by `text[lo..hi]`.
fn parse_number(text: &[u8], lo: usize, hi: usize) -> (r: Option<u128>)
    requires
        lo <= hi <= text@.len(),
    ensures
        r == number_text(text@.subrange(lo as int, hi as int)),
{
    let ghost s = text@.subrange(lo as int, hi as int);
    let mut start = lo;
    if lo < hi && text[lo] == PLUS {
        start = lo + 1;
    }
    let ghost d = text@.subrange(start as int, hi as int);
    assert(d =~= unsigned_digits(s));
    if start == hi {
        return None;
    }
    let mut acc: u128 = 0;
    let mut i = start;
    while i < hi
        invariant
            start <= i <= hi <= text@.len(),
            d == text@.subrange(start as int, hi as int),
            d == unsigned_digits(text@.subrange(lo as int, hi as int)),
            forall|j: int| 0 <= j < i - start ==> is_digit(#[trigger] d[j]),
            acc == digits_value(d.take(i - start)),
        decreases hi - i,
    {
        let b = text[i];
        assert(d[i - start] == b);
        if b < ZERO || b > NINE {
            assert(!is_digit(d[i - start]));
            return None;
        }
        proof {
            assert(d.take(i - start + 1).drop_last() =~= d.take(i - start));
            assert(digits_value(d.take(i - start + 1)) == acc * 10 + (b - ZERO) as nat);
        }
        let next = match acc.checked_mul(10) {
            Some(m) => m.checked_add((b - ZERO) as u128),
            None => None,
        };
        match next {
            Some(v) => {
                acc = v;
            },
            None => {
                proof {
                    lemma_digits_prefix(d, i - start + 1);
                }
                return None;
            },
        }
        i = i + 1;
    }
    proof {
        assert(d.take(i - start) =~= d);
    }
    Some(acc)
}

/// Reads an argument as an inclusive range: `A-B` or `A..B`, or one integer
/// `n` for the range from `n` to `n`. `None` where a part is no integer.
pub fn parse_range(text: &[u8]) -> (r: Option<(u128, u128)>)
    ensures
        r == range_text(text@),
{
    let ghost s = text@;
    let n = text.len();
    let mut i: usize = 0;
    while i < n
        invariant
            n == s.len(),
            s == text@,
            i <= n,
            forall|j: int| 0 <= j < i ==> #[trigger] s[j] != DASH,
        decreases n - i,
    {
        if text[i] == DASH {
            proof {
                assert(first_dash(s, i as int));
                assert forall|p: int| first_dash(s, p) implies p == i by {
                    if p < i {
                        assert(s[p] != DASH);
                    }
                    if p > i {
                        assert(s[i as int] != DASH);
                    }
                }
            }
            return match (parse_number(text, 0, i), parse_number(text, i + 1, n)) {
                (Some(a), Some(b)) => Some((a, b)),
                _ => None,
            };
        }
        i = i + 1;
    }
    assert(!exists|p: int| first_dash(s, p));
    let mut k: usize = 0;
    let last: usize = if n > 0 {
        n - 1
    } else {
        0
    };
    while k < last
        invariant
            n == s.len(),
            last == if n > 0 {
                n - 1
            } else {
                0
            },
            s == text@,
            k <= n,
            !exists|p: int| first_dash(s, p),
            forall|j: int| 0 <= j < k ==> !(#[trigger] s[j] == DOT && s[j + 1] == DOT),
        decreases n - k,
    {
        if text[k] == DOT && text[k + 1] == DOT {
            proof {
                assert(first_dots(s, k as int));
                assert forall|p: int| first_dots(s, p) implies p == k by {
                    if p < k {
                        assert(!(s[p] == DOT && s[p + 1] == DOT));
                    }
                    if p > k {
                        assert(!(s[k as int] == DOT && s[k + 1] == DOT));
                    }
                }
            }
            return match (parse_number(text, 0, k), parse_number(text, k + 2, n)) {
                (Some(a), Some(b)) => Some((a, b)),
                _ => None,
            };
        }
        k = k + 1;
    }
    assert(!exists|p: int| first_dots(s, p)) by {
        assert forall|p: int| !first_dots(s, p) by {
            if first_dots(s, p) {
                assert(p < k);
            }
        }
    }
    assert(s.subrange(0, n as int) =~= s);
    match parse_number(text, 0, n) {
        Some(v) => Some((v, v)),
        None => None,
    }
}

} // verus!
