//! Byte-level text helpers for the feed parser: substring search, prefix and
//! suffix handling, line splitting, and decimal parsing.

use vstd::prelude::*;

verus! {

/// The needle `n` occurs in `h` starting at position `i`.
pub open spec fn is_match_at(h: Seq<u8>, n: Seq<u8>, i: int) -> bool {
    0 <= i && i + n.len() <= h.len() && h.subrange(i, i + n.len()) == n
}

/// The needle `n` occurs somewhere in `h`.
pub open spec fn contains_seq(h: Seq<u8>, n: Seq<u8>) -> bool {
    exists|i: int| is_match_at(h, n, i)
}

/// Position of the first occurrence of `n` in `h` at or after `i`.
pub open spec fn find_from(h: Seq<u8>, n: Seq<u8>, i: int) -> Option<int>
    decreases h.len() - i,
{
    if i < 0 || i + n.len() > h.len() {
        None
    } else if n.len() == 0 || is_match_at(h, n, i) {
        Some(i)
    } else {
        find_from(h, n, i + 1)
    }
}

/// A found occurrence lies within the haystack, at or after the start.
pub proof fn lemma_find_from_bounds(h: Seq<u8>, n: Seq<u8>, i: int)
    requires
        find_from(h, n, i) is Some,
    ensures
        i <= find_from(h, n, i)->Some_0,
        find_from(h, n, i)->Some_0 + n.len() <= h.len(),
        is_match_at(h, n, find_from(h, n, i)->Some_0) || n.len() == 0,
    decreases h.len() - i,
{
    if !(i < 0 || i + n.len() > h.len()) && n.len() != 0 && !is_match_at(h, n, i) {
        lemma_find_from_bounds(h, n, i + 1);
    } else if n.len() == 0 && 0 <= i && i <= h.len() {
        assert(h.subrange(i, i) =~= n);
    }
}

/// Searching a suffix finds the same occurrence, shifted.
pub proof fn lemma_find_shift(s: Seq<u8>, n: Seq<u8>, p: int, j: int)
    requires
        0 <= p <= j,
        p <= s.len(),
    ensures
        ({
            let r1 = find_from(s, n, j);
            let r2 = find_from(s.skip(p), n, j - p);
            match r1 {
                Option::Some(i) => r2 == Some(i - p),
                Option::None => r2 is None,
            }
        }),
    decreases s.len() - j,
{
    if j + n.len() > s.len() {
        assert(s.skip(p).len() == s.len() - p);
    } else if n.len() == 0 {
    } else {
        assert(s.subrange(j, j + n.len()) =~= s.skip(p).subrange(j - p, j - p + n.len()));
        if !is_match_at(s, n, j) {
            lemma_find_shift(s, n, p, j + 1);
        }
    }
}

/// `s` begins with `pat`.
pub open spec fn match_prefix(s: Seq<u8>, pat: Seq<u8>) -> bool {
    s.len() >= pat.len() && s.take(pat.len() as int) == pat
}

/// `s` with every leading tab removed.
pub open spec fn strip_tabs(s: Seq<u8>) -> Seq<u8>
    decreases s.len(),
{
    if s.len() > 0 && s[0] == 9u8 {
        strip_tabs(s.drop_first())
    } else {
        s
    }
}

/// `s` with every trailing occurrence of `pat` removed.
pub open spec fn strip_suffix_rec(s: Seq<u8>, pat: Seq<u8>) -> Seq<u8>
    decreases s.len(),
{
    if pat.len() > 0 && s.len() >= pat.len() && s.subrange(s.len() - pat.len(), s.len() as int)
        == pat {
        strip_suffix_rec(s.take(s.len() - pat.len()), pat)
    } else {
        s
    }
}

/// The lines of `s`, split on the newline byte; the separator is dropped.
pub open spec fn lines_of(s: Seq<u8>) -> Seq<Seq<u8>>
    decreases s.len(),
    via lines_of_decreases
{
    match find_from(s, seq![10u8], 0) {
        Option::None => seq![s],
        Option::Some(i) => seq![s.take(i)] + lines_of(s.skip(i + 1)),
    }
}

#[via_fn]
proof fn lines_of_decreases(s: Seq<u8>) {
    match find_from(s, seq![10u8], 0) {
        Option::None => {},
        Option::Some(i) => {
            lemma_find_from_bounds(s, seq![10u8], 0);
        },
    }
}

/// `b` is an ASCII decimal digit.
pub open spec fn is_digit(b: u8) -> bool {
    48 <= b <= 57
}

/// Every byte of `s` is a decimal digit.
pub open spec fn all_digits(s: Seq<u8>) -> bool {
    forall|i: int| 0 <= i < s.len() ==> is_digit(s[i])
}

/// The number denoted by a digit string, most significant digit first.
pub open spec fn digits_val(s: Seq<u8>) -> int
    decreases s.len(),
{
    if s.len() == 0 {
        0
    } else {
        digits_val(s.drop_last()) * 10 + (s.last() - 48)
    }
}

/// Length of the run of digits at the start of `s`.
pub open spec fn digit_run_len(s: Seq<u8>) -> int
    decreases s.len(),
{
    if s.len() > 0 && is_digit(s[0]) {
        1 + digit_run_len(s.drop_first())
    } else {
        0
    }
}

/// Largest value the decimal parser accepts.
pub const MAX_PARSED: u64 = 2147483647;

/// A digit string denotes a nonnegative number.
pub proof fn lemma_digits_val_nonneg(s: Seq<u8>)
    requires
        all_digits(s),
    ensures
        digits_val(s) >= 0,
    decreases s.len(),
{
    if s.len() > 0 {
        assert(all_digits(s.drop_last())) by {
            assert(forall|i: int| 0 <= i < s.len() - 1 ==> s.drop_last()[i] == s[i]);
        }
        lemma_digits_val_nonneg(s.drop_last());
    }
}

/// Extending a digit string to the right can only increase its value.
pub proof fn lemma_digits_val_prefix(s: Seq<u8>, k: int)
    requires
        all_digits(s),
        0 <= k <= s.len(),
    ensures
        digits_val(s.take(k)) <= digits_val(s),
    decreases s.len() - k,
{
    if k < s.len() {
        assert(all_digits(s.take(k))) by {
            assert(forall|i: int| 0 <= i < k ==> s.take(k)[i] == s[i]);
        }
        lemma_digits_val_nonneg(s.take(k));
        assert(s.take(k + 1).drop_last() =~= s.take(k));
        assert(digits_val(s.take(k + 1)) == digits_val(s.take(k)) * 10 + (s[k] - 48));
        lemma_digits_val_prefix(s, k + 1);
    } else {
        assert(s.take(k) =~= s);
    }
}

/// Check whether `n` occurs in `h` starting exactly at `i`.
pub fn match_at(h: &Vec<u8>, n: &Vec<u8>, i: usize) -> (b: bool)
    requires
        i + n@.len() <= h@.len(),
    ensures
        b == is_match_at(h@, n@, i as int),
{
    let h_len = h.len();
    let mut k: usize = 0;
    while k < n.len()
        invariant
            k <= n@.len(),
            i + n@.len() <= h@.len(),
            h_len == h@.len(),
            forall|m: int| 0 <= m < k ==> h@[i + m] == n@[m],
        decreases n@.len() - k,
    {
        if h[i + k] != n[k] {
            proof {
                assert(h@.subrange(i as int, i + n@.len())[k as int] == h@[i + k]);
            }
            return false;
        }
        k += 1;
    }
    proof {
        assert(h@.subrange(i as int, i + n@.len()) =~= n@);
    }
    true
}

/// Check whether `s` starts with `pat` when read from position `pos`.
pub fn starts_with_at(s: &Vec<u8>, pos: usize, pat: &Vec<u8>) -> (b: bool)
    requires
        pos <= s@.len(),
    ensures
        b == match_prefix(s@.skip(pos as int), pat@),
{
    if s.len() - pos < pat.len() {
        return false;
    }
    let r = match_at(s, pat, pos);
    proof {
        assert(s@.skip(pos as int).take(pat@.len() as int) =~= s@.subrange(
            pos as int,
            pos + pat@.len(),
        ));
    }
    r
}

/// Find the first occurrence of `n` in `h` at or after `from`.
pub fn find_bytes_from(h: &Vec<u8>, n: &Vec<u8>, from: usize) -> (r: Option<usize>)
    requires
        from <= h@.len(),
    ensures
        match r {
            Option::Some(i) => from <= i && find_from(h@, n@, from as int) == Some(i as int),
            Option::None => find_from(h@, n@, from as int).is_none(),
        },
{
    if n.len() == 0 {
        return Some(from);
    }
    if h.len() < n.len() {
        return None;
    }
    let h_len = h.len();
    let last = h_len - n.len();
    let mut i: usize = from;
    if i > last {
        return None;
    }
    while i <= last
        invariant
            from <= i,
            i <= last + 1,
            h_len == h@.len(),
            last == h@.len() - n@.len(),
            n@.len() > 0,
            find_from(h@, n@, from as int) == find_from(h@, n@, i as int),
        decreases last + 1 - i,
    {
        if match_at(h, n, i) {
            return Some(i);
        }
        i += 1;
    }
    None
}

/// Copy the byte range `[from, to)` of `s` into a fresh vector.
pub fn subvec(s: &Vec<u8>, from: usize, to: usize) -> (v: Vec<u8>)
    requires
        from <= to <= s@.len(),
    ensures
        v@ == s@.subrange(from as int, to as int),
{
    let mut v: Vec<u8> = Vec::new();
    let mut i: usize = from;
    while i < to
        invariant
            from <= i <= to <= s@.len(),
            v@.len() == i - from,
            forall|m: int| 0 <= m < v@.len() ==> v@[m] == s@[from + m],
        decreases to - i,
    {
        v.push(s[i]);
        i += 1;
    }
    proof {
        assert(v@ =~= s@.subrange(from as int, to as int));
    }
    v
}

/// Length of the digit run in `s` starting at `pos`.
pub fn digit_run_from(s: &Vec<u8>, pos: usize) -> (k: usize)
    requires
        pos <= s@.len(),
    ensures
        k == digit_run_len(s@.skip(pos as int)),
        pos + k <= s@.len(),
{
    let mut i: usize = pos;
    while i < s.len() && 48 <= s[i] && s[i] <= 57
        invariant
            pos <= i <= s@.len(),
            digit_run_len(s@.skip(pos as int)) == i - pos + digit_run_len(s@.skip(i as int)),
        decreases s@.len() - i,
    {
        proof {
            assert(s@.skip(i as int)[0] == s@[i as int]);
            assert(s@.skip(i as int).drop_first() =~= s@.skip(i as int + 1));
        }
        i += 1;
    }
    proof {
        if i < s@.len() {
            assert(s@.skip(i as int)[0] == s@[i as int]);
        }
        assert(digit_run_len(s@.skip(i as int)) == 0);
    }
    i - pos
}

/// Length of the run of space bytes at the start of `s`.
pub open spec fn space_run_len(s: Seq<u8>) -> int
    decreases s.len(),
{
    if s.len() > 0 && s[0] == 32u8 {
        1 + space_run_len(s.drop_first())
    } else {
        0
    }
}

/// Length of the run of spaces in `s` starting at `pos`.
pub fn space_run_from(s: &Vec<u8>, pos: usize) -> (k: usize)
    requires
        pos <= s@.len(),
    ensures
        k == space_run_len(s@.skip(pos as int)),
        pos + k <= s@.len(),
{
    let mut i: usize = pos;
    while i < s.len() && s[i] == 32
        invariant
            pos <= i <= s@.len(),
            space_run_len(s@.skip(pos as int)) == i - pos + space_run_len(s@.skip(i as int)),
        decreases s@.len() - i,
    {
        proof {
            assert(s@.skip(i as int)[0] == s@[i as int]);
            assert(s@.skip(i as int).drop_first() =~= s@.skip(i as int + 1));
        }
        i += 1;
    }
    proof {
        if i < s@.len() {
            assert(s@.skip(i as int)[0] == s@[i as int]);
        }
        assert(space_run_len(s@.skip(i as int)) == 0);
    }
    i - pos
}

/// Parse the digit string `s[from..to]` as a decimal number, rejecting
/// values above `MAX_PARSED`.
pub fn parse_digits(s: &Vec<u8>, from: usize, to: usize) -> (r: Option<u64>)
    requires
        from <= to <= s@.len(),
    ensures
        ({
            let d = s@.subrange(from as int, to as int);
            match r {
                Option::Some(v) => to > from && all_digits(d) && v == digits_val(d) && v
                    <= MAX_PARSED,
                Option::None => to == from || !all_digits(d) || digits_val(d) > MAX_PARSED,
            }
        }),
{
    let ghost d = s@.subrange(from as int, to as int);
    if from == to {
        return None;
    }
    let mut acc: u64 = 0;
    let mut i: usize = from;
    while i < to
        invariant
            from <= i <= to <= s@.len(),
            d == s@.subrange(from as int, to as int),
            all_digits(d.take(i - from)),
            acc == digits_val(d.take(i - from)),
            acc <= MAX_PARSED,
        decreases to - i,
    {
        let b = s[i];
        if b < 48 || b > 57 {
            proof {
                assert(d[i - from] == s@[i as int]);
                assert(!all_digits(d));
            }
            return None;
        }
        proof {
            assert(d[i - from] == s@[i as int]);
            assert(d.take(i - from + 1).drop_last() =~= d.take(i - from));
            assert(forall|m: int| 0 <= m < i - from + 1 ==> d.take(i - from + 1)[m] == d[m]);
        }
        let next = acc * 10 + ((b - 48) as u64);
        if next > MAX_PARSED {
            proof {
                assert(digits_val(d.take(i - from + 1)) == next);
                assert(all_digits(d.take(i - from + 1)));
                if all_digits(d) {
                    assert(d.take(i - from + 1) =~= d.take(i - from + 1));
                    lemma_digits_val_prefix(d, i - from + 1);
                }
            }
            return None;
        }
        acc = next;
        i += 1;
    }
    proof {
        assert(d.take(to - from) =~= d);
    }
    Some(acc)
}

} // verus!
