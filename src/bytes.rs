//! Searching and number parsing over byte sequences.
use vstd::prelude::*;

verus! {

/// Whether `pat` occurs in `b` starting at index `i`.
pub open spec fn matches_at(b: Seq<u8>, pat: Seq<u8>, i: int) -> bool {
    0 <= i && i + pat.len() <= b.len() && b.subrange(i, i + pat.len()) == pat
}

/// The first index `j >= i` at which `pat` occurs in `b` and ends no later than `to`.
pub open spec fn find_from(b: Seq<u8>, pat: Seq<u8>, i: int, to: int) -> Option<int>
    decreases to - i,
{
    if i < 0 || to > b.len() || i + pat.len() > to {
        None
    } else if matches_at(b, pat, i) {
        Some(i)
    } else if i >= to {
        None
    } else {
        find_from(b, pat, i + 1, to)
    }
}

/// An exec position seen as a mathematical one.
pub open spec fn opt_int(r: Option<usize>) -> Option<int> {
    match r {
        Some(i) => Some(i as int),
        None => None,
    }
}

pub proof fn lemma_find_from_bounds(b: Seq<u8>, pat: Seq<u8>, i: int, to: int)
    ensures
        find_from(b, pat, i, to) matches Some(j) ==> i <= j && j + pat.len() <= to && to <= b.len()
            && matches_at(b, pat, j)
            && forall|k: int| i <= k < j ==> !matches_at(b, pat, k),
    decreases to - i,
{
    if !(i < 0 || to > b.len() || i + pat.len() > to) && !matches_at(b, pat, i) && i < to {
        lemma_find_from_bounds(b, pat, i + 1, to);
    }
}

/// A search result depends only on the bytes before its bound.
pub proof fn lemma_find_from_extend(b: Seq<u8>, e: Seq<u8>, pat: Seq<u8>, i: int, to: int)
    requires
        to <= b.len(),
    ensures
        find_from(b + e, pat, i, to) == find_from(b, pat, i, to),
    decreases to - i,
{
    if !(i < 0 || i + pat.len() > to) {
        assert((b + e).subrange(i, i + pat.len()) =~= b.subrange(i, i + pat.len()));
        if i < to {
            lemma_find_from_extend(b, e, pat, i + 1, to);
        }
    }
}

/// Whether `pat` occurs in `b` at index `i`.
pub fn bytes_match_at(b: &[u8], pat: &[u8], i: usize) -> (r: bool)
    ensures
        r == matches_at(b@, pat@, i as int),
{
    if i > b.len() || pat.len() > b.len() - i {
        return false;
    }
    let mut j: usize = 0;
    while j < pat.len()
        invariant
            j <= pat.len(),
            i + pat.len() <= b.len(),
            forall|k: int| 0 <= k < j ==> b@[i + k] == pat@[k],
        decreases pat.len() - j,
    {
        if b[i + j] != pat[j] {
            assert(b@.subrange(i as int, i + pat.len())[j as int] != pat@[j as int]);
            return false;
        }
        j = j + 1;
    }
    assert(b@.subrange(i as int, i + pat.len()) =~= pat@);
    true
}

/// The first occurrence of `pat` in `b` at or after `from` that ends no later than `to`.
pub fn find_bytes(b: &[u8], pat: &[u8], from: usize, to: usize) -> (r: Option<usize>)
    requires
        from <= to <= b.len(),
    ensures
        opt_int(r) == find_from(b@, pat@, from as int, to as int),
{
    if pat.len() > to - from {
        return None;
    }
    let last = to - pat.len();
    let mut i: usize = from;
    loop
        invariant
            from <= i <= last,
            last + pat.len() == to,
            to <= b.len(),
            find_from(b@, pat@, from as int, to as int) == find_from(b@, pat@, i as int, to as int),
        decreases last - i,
    {
        if bytes_match_at(b, pat, i) {
            return Some(i);
        }
        if i == last {
            assert(find_from(b@, pat@, i + 1, to as int) is None);
            return None;
        }
        i = i + 1;
    }
}

/// The value of a digit in base 16 (`hex`) or base 10, or -1 for a byte that is no digit.
pub open spec fn digit_value(c: u8, hex: bool) -> int {
    if 48 <= c <= 57 {
        c - 48
    } else if hex && 97 <= c <= 102 {
        c - 87
    } else if hex && 65 <= c <= 70 {
        c - 55
    } else {
        -1
    }
}

pub open spec fn radix(hex: bool) -> int {
    if hex { 16 } else { 10 }
}

pub open spec fn all_digits(s: Seq<u8>, hex: bool) -> bool {
    forall|k: int| 0 <= k < s.len() ==> digit_value(#[trigger] s[k], hex) >= 0
}

/// The number that the digits `s` spell, most significant first.
pub open spec fn digits_value(s: Seq<u8>, hex: bool) -> int
    decreases s.len(),
{
    if s.len() == 0 {
        0
    } else {
        digits_value(s.drop_last(), hex) * radix(hex) + digit_value(s.last(), hex)
    }
}

/// The number that `s` spells, when it is a non-empty run of digits whose value fits a `usize`.
pub open spec fn parse_number(s: Seq<u8>, hex: bool) -> Option<int> {
    if s.len() > 0 && all_digits(s, hex) && digits_value(s, hex) <= usize::MAX {
        Some(digits_value(s, hex))
    } else {
        None
    }
}

proof fn lemma_digits_value_mono(s: Seq<u8>, hex: bool, j: int)
    requires
        all_digits(s, hex),
        0 <= j <= s.len(),
    ensures
        0 <= digits_value(s.take(j), hex) <= digits_value(s, hex),
    decreases s.len(),
{
    if j < s.len() {
        let p = s.drop_last();
        assert(p.take(j) =~= s.take(j));
        assert(all_digits(p, hex)) by {
            assert forall|k: int| 0 <= k < p.len() implies digit_value(#[trigger] p[k], hex) >= 0 by {
                assert(p[k] == s[k]);
            }
        }
        lemma_digits_value_mono(p, hex, j);
        lemma_digits_value_mono(p, hex, p.len() as int);
        assert(p.take(p.len() as int) =~= p);
        assert(digit_value(s.last(), hex) >= 0);
        let v = digits_value(p, hex);
        assert(v <= v * radix(hex)) by (nonlinear_arith)
            requires v >= 0, radix(hex) >= 10;
    } else {
        assert(s.take(j) =~= s);
        if s.len() > 0 {
            let p = s.drop_last();
            assert(all_digits(p, hex)) by {
                assert forall|k: int| 0 <= k < p.len() implies digit_value(#[trigger] p[k], hex) >= 0 by {
                    assert(p[k] == s[k]);
                }
            }
            lemma_digits_value_mono(p, hex, p.len() as int);
            assert(p.take(p.len() as int) =~= p);
            assert(digit_value(s.last(), hex) >= 0);
            let v = digits_value(p, hex);
            assert(v * radix(hex) >= 0) by (nonlinear_arith)
                requires v >= 0, radix(hex) >= 10;
        }
    }
}

/// A parsed number is never negative.
pub proof fn lemma_parse_number_nonneg(s: Seq<u8>, hex: bool)
    ensures
        parse_number(s, hex) matches Some(v) ==> 0 <= v <= usize::MAX,
{
    if parse_number(s, hex) is Some {
        lemma_digits_value_mono(s, hex, s.len() as int);
        assert(s.take(s.len() as int) =~= s);
    }
}

fn digit_of(c: u8, hex: bool) -> (r: Option<usize>)
    ensures
        match r {
            Some(d) => digit_value(c, hex) == d as int && d < radix(hex),
            None => digit_value(c, hex) < 0,
        },
{
    if 48 <= c && c <= 57 {
        Some((c - 48) as usize)
    } else if hex && 97 <= c && c <= 102 {
        Some((c - 87) as usize)
    } else if hex && 65 <= c && c <= 70 {
        Some((c - 55) as usize)
    } else {
        None
    }
}

/// Reads `b[from..to]` as a number in base 16 (`hex`) or base 10.
pub fn parse_number_in(b: &[u8], from: usize, to: usize, hex: bool) -> (r: Option<usize>)
    requires
        from <= to <= b.len(),
    ensures
        opt_int(r) == parse_number(b@.subrange(from as int, to as int), hex),
{
    let ghost s = b@.subrange(from as int, to as int);
    if from == to {
        return None;
    }
    let base: usize = if hex { 16 } else { 10 };
    let mut acc: usize = 0;
    let mut i: usize = from;
    while i < to
        invariant
            from <= i <= to <= b.len(),
            s == b@.subrange(from as int, to as int),
            base == radix(hex),
            all_digits(s.take(i - from), hex),
            acc as int == digits_value(s.take(i - from), hex),
        decreases to - i,
    {
        let ghost t = s.take(i - from + 1);
        assert(t.drop_last() =~= s.take(i - from));
        assert(t.last() == b@[i as int]);
        let d = match digit_of(b[i], hex) {
            Some(d) => d,
            None => {
                assert(s[i - from] == b@[i as int]);
                return None;
            },
        };
        assert(all_digits(t, hex)) by {
            assert forall|k: int| 0 <= k < t.len() implies digit_value(#[trigger] t[k], hex) >= 0 by {
                if k < t.len() - 1 {
                    assert(t[k] == s.take(i - from)[k]);
                }
            }
        }
        let m = acc.checked_mul(base);
        let next = match m {
            Some(m) => m.checked_add(d),
            None => None,
        };
        match next {
            Some(n) => {
                acc = n;
            },
            None => {
                proof {
                    if all_digits(s, hex) {
                        lemma_digits_value_mono(s, hex, i - from + 1);
                    }
                }
                return None;
            },
        }
        i = i + 1;
    }
    assert(s.take(to - from) =~= s);
    Some(acc)
}

} // verus!
