use vstd::prelude::*;

verus! {

pub open spec fn is_digit(c: char) -> bool {
    '0' <= c && c <= '9'
}

pub open spec fn all_digits(s: Seq<char>) -> bool {
    forall|i: int| 0 <= i < s.len() ==> is_digit(#[trigger] s[i])
}

/// Characters that the source data wraps numbers in: quotes and thousands separators.
pub open spec fn is_separator(c: char) -> bool {
    c == '"' || c == ','
}

/// The text with every quote and comma taken out.
pub open spec fn without_separators(s: Seq<char>) -> Seq<char>
    decreases s.len(),
{
    if s.len() == 0 {
        s
    } else {
        let rest = without_separators(s.drop_last());
        if is_separator(s.last()) {
            rest
        } else {
            rest.push(s.last())
        }
    }
}

pub open spec fn digit_value(c: char) -> nat {
    (c as nat - '0' as nat) as nat
}

/// The number that a string of decimal digits denotes.
pub open spec fn digits_value(s: Seq<char>) -> nat
    decreases s.len(),
{
    if s.len() == 0 {
        0
    } else {
        digits_value(s.drop_last()) * 10 + digit_value(s.last())
    }
}

/// A digit string without its leading zeros, keeping a single `0` for zero.
pub open spec fn canonical_digits(s: Seq<char>) -> Seq<char>
    decreases s.len(),
{
    if s.len() > 1 && s[0] == '0' {
        canonical_digits(s.drop_first())
    } else {
        s
    }
}

/// What cleaning does to the text of a value field: `None` when the row is to be dropped.
/// Quotes and commas are removed; a string of digits becomes its canonical decimal text
/// if it parses as a `u64`; any other text is kept as it is.
pub open spec fn cleaned_value(s: Seq<char>) -> Option<Seq<char>> {
    let t = without_separators(s);
    if all_digits(t) {
        if t.len() > 0 && digits_value(t) <= u64::MAX {
            Some(canonical_digits(t))
        } else {
            None
        }
    } else {
        Some(t)
    }
}

/// Removes every quote and comma from `s`.
pub fn strip_separators(s: &str) -> (r: String)
    ensures
        r@ == without_separators(s@),
{
    let n = s.unicode_len();
    let mut out = String::new();
    let mut i: usize = 0;
    while i < n
        invariant
            n == s@.len(),
            i <= n,
            out@ == without_separators(s@.subrange(0, i as int)),
        decreases n - i,
    {
        let c = s.get_char(i);
        assert(s@.subrange(0, i + 1).drop_last() =~= s@.subrange(0, i as int));
        if c != '"' && c != ',' {
            out.append(s.substring_char(i, i + 1));
        }
        i = i + 1;
    }
    assert(s@.subrange(0, n as int) =~= s@);
    out
}

/// Whether every character of `s` is a decimal digit (true of the empty string).
pub fn is_all_digits(s: &str) -> (r: bool)
    ensures
        r == all_digits(s@),
{
    let n = s.unicode_len();
    let mut i: usize = 0;
    while i < n
        invariant
            n == s@.len(),
            i <= n,
            forall|k: int| 0 <= k < i ==> is_digit(#[trigger] s@[k]),
        decreases n - i,
    {
        let c = s.get_char(i);
        if !('0' <= c && c <= '9') {
            return false;
        }
        i = i + 1;
    }
    true
}

/// Parses a non-empty string of decimal digits as a `u64`; `None` when the string is
/// empty, holds another character, or denotes a number above `u64::MAX`.
pub fn parse_digits(s: &str) -> (r: Option<u64>)
    ensures
        r == (if s@.len() > 0 && all_digits(s@) && digits_value(s@) <= u64::MAX {
            Some(digits_value(s@) as u64)
        } else {
            None::<u64>
        }),
{
    let n = s.unicode_len();
    if n == 0 {
        return None;
    }
    let mut acc: u64 = 0;
    let mut i: usize = 0;
    while i < n
        invariant
            n == s@.len(),
            i <= n,
            all_digits(s@.subrange(0, i as int)),
            acc as nat == digits_value(s@.subrange(0, i as int)),
        decreases n - i,
    {
        let c = s.get_char(i);
        assert(s@.subrange(0, i + 1).drop_last() =~= s@.subrange(0, i as int));
        if !('0' <= c && c <= '9') {
            assert(!all_digits(s@)) by {
                assert(!is_digit(s@[i as int]));
            }
            return None;
        }
        let d = (c as u32 - '0' as u32) as u64;
        match acc.checked_mul(10) {
            Some(m) => {
                match m.checked_add(d) {
                    Some(v) => {
                        acc = v;
                    },
                    None => {
                        proof {
                            lemma_digits_value_prefix_bound(s@, i as int + 1);
                        }
                        return None;
                    },
                }
            },
            None => {
                proof {
                    lemma_digits_value_prefix_bound(s@, i as int + 1);
                }
                return None;
            },
        }
        i = i + 1;
    }
    assert(s@.subrange(0, n as int) =~= s@);
    Some(acc)
}

/// The value of a digit string is at least the value of any of its prefixes.
proof fn lemma_digits_value_prefix_bound(s: Seq<char>, k: int)
    requires
        0 <= k <= s.len(),
    ensures
        digits_value(s.subrange(0, k)) <= digits_value(s),
    decreases s.len() - k,
{
    if k < s.len() {
        lemma_digits_value_prefix_bound(s, k + 1);
        assert(s.subrange(0, k + 1).drop_last() =~= s.subrange(0, k));
    } else {
        assert(s.subrange(0, k) =~= s);
    }
}

/// Drops the leading zeros of a digit string, keeping one `0` where all are zeros.
pub fn strip_leading_zeros(s: &str) -> (r: String)
    ensures
        r@ == canonical_digits(s@),
{
    let n = s.unicode_len();
    let mut k: usize = 0;
    assert(s@.subrange(0, n as int) =~= s@);
    while k + 1 < n && s.get_char(k) == '0'
        invariant
            n == s@.len(),
            k <= n,
            n > 0 ==> k < n,
            canonical_digits(s@) == canonical_digits(s@.subrange(k as int, n as int)),
        decreases n - k,
    {
        assert(s@.subrange(k as int, n as int).drop_first() =~= s@.subrange(k + 1, n as int));
        k = k + 1;
    }
    String::from_str(s.substring_char(k, n))
}

/// Cleans the text of a value field; `None` means the row is to be dropped
/// (digits that do not parse as a `u64`, or nothing left after cleaning).
pub fn clean_value(s: &str) -> (r: Option<String>)
    ensures
        r matches Some(t) ==> cleaned_value(s@) == Some(t@),
        r is None <==> cleaned_value(s@) is None,
{
    let t = strip_separators(s);
    if is_all_digits(t.as_str()) {
        match parse_digits(t.as_str()) {
            Some(_) => Some(strip_leading_zeros(t.as_str())),
            None => None,
        }
    } else {
        Some(t)
    }
}

proof fn lemma_no_separators_left(s: Seq<char>)
    ensures
        forall|i: int|
            0 <= i < without_separators(s).len() ==> !is_separator(
                #[trigger] without_separators(s)[i],
            ),
    decreases s.len(),
{
    if s.len() > 0 {
        lemma_no_separators_left(s.drop_last());
        let rest = without_separators(s.drop_last());
        assert forall|i: int| 0 <= i < without_separators(s).len() implies !is_separator(
            #[trigger] without_separators(s)[i],
        ) by {
            if !is_separator(s.last()) && i == rest.len() {
                assert(without_separators(s)[i] == s.last());
            } else {
                assert(without_separators(s)[i] == rest[i]);
            }
        }
    }
}

proof fn lemma_without_separators_keeps(s: Seq<char>)
    requires
        forall|i: int| 0 <= i < s.len() ==> !is_separator(#[trigger] s[i]),
    ensures
        without_separators(s) == s,
    decreases s.len(),
{
    if s.len() > 0 {
        lemma_without_separators_keeps(s.drop_last());
        assert(s.drop_last().push(s.last()) =~= s);
    }
}

proof fn lemma_leading_zero_value(s: Seq<char>)
    requires
        s.len() > 0,
        s[0] == '0',
    ensures
        digits_value(s) == digits_value(s.drop_first()),
    decreases s.len(),
{
    if s.len() == 1 {
        assert(digits_value(s.drop_last()) == 0);
        assert(digit_value(s.last()) == 0);
        assert(digits_value(s.drop_first()) == 0);
    } else {
        assert(s.drop_last()[0] == '0');
        lemma_leading_zero_value(s.drop_last());
        assert(s.drop_first().drop_last() =~= s.drop_last().drop_first());
        assert(s.drop_first().last() == s.last());
        assert(digits_value(s) == digits_value(s.drop_last()) * 10 + digit_value(s.last()));
        assert(digits_value(s.drop_first()) == digits_value(s.drop_first().drop_last()) * 10
            + digit_value(s.drop_first().last()));
    }
}

proof fn lemma_canonical_digits(t: Seq<char>)
    requires
        all_digits(t),
    ensures
        all_digits(canonical_digits(t)),
        digits_value(canonical_digits(t)) == digits_value(t),
        t.len() > 0 ==> canonical_digits(t).len() > 0,
        canonical_digits(canonical_digits(t)) == canonical_digits(t),
    decreases t.len(),
{
    if t.len() > 1 && t[0] == '0' {
        assert(all_digits(t.drop_first())) by {
            assert forall|i: int| 0 <= i < t.drop_first().len() implies is_digit(
                #[trigger] t.drop_first()[i],
            ) by {
                assert(t.drop_first()[i] == t[i + 1]);
            }
        }
        lemma_leading_zero_value(t);
        lemma_canonical_digits(t.drop_first());
    }
}

/// Cleaning a value that cleaning produced changes nothing.
pub proof fn lemma_clean_value_idempotent(s: Seq<char>)
    ensures
        cleaned_value(s) matches Some(v) ==> cleaned_value(v) == Some(v),
{
    let t = without_separators(s);
    lemma_no_separators_left(s);
    if let Some(v) = cleaned_value(s) {
        if all_digits(t) {
            lemma_canonical_digits(t);
            assert forall|i: int| 0 <= i < v.len() implies !is_separator(#[trigger] v[i]) by {
                assert(is_digit(v[i]));
            }
            lemma_without_separators_keeps(v);
        } else {
            lemma_without_separators_keeps(t);
        }
    }
}

} // verus!
