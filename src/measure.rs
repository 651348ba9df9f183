//! Reading the size that `du -sk` reports.
use vstd::prelude::*;
use vstd::string::*;

verus! {

/// The characters that `char::is_whitespace` accepts (Unicode `White_Space`).
pub open spec fn is_ws(c: char) -> bool {
    c == ' ' || ('\t' <= c && c <= '\r') || c == '\u{85}' || c == '\u{a0}' || c == '\u{1680}' || (
    '\u{2000}' <= c && c <= '\u{200a}') || c == '\u{2028}' || c == '\u{2029}' || c == '\u{202f}'
        || c == '\u{205f}' || c == '\u{3000}'
}

/// The end of the run of characters from `k` on that `ws` says to take.
pub open spec fn run_end(s: Seq<char>, k: int, ws: bool) -> int
    decreases s.len() - k,
{
    if 0 <= k < s.len() && is_ws(s[k]) == ws {
        run_end(s, k + 1, ws)
    } else {
        k
    }
}

/// The first whitespace-separated word of `s` (empty when there is none).
pub open spec fn first_word(s: Seq<char>) -> Seq<char> {
    let start = run_end(s, 0, true);
    s.subrange(start, run_end(s, start, false))
}

pub open spec fn is_digit(c: char) -> bool {
    '0' <= c && c <= '9'
}

pub open spec fn all_digits(d: Seq<char>) -> bool {
    forall|i: int| 0 <= i < d.len() ==> is_digit(#[trigger] d[i])
}

/// The number that the decimal digits `d` write.
pub open spec fn digits_value(d: Seq<char>) -> nat
    decreases d.len(),
{
    if d.len() == 0 {
        0
    } else {
        10 * digits_value(d.drop_last()) + ((d.last() as u32 - '0' as u32) as nat)
    }
}

/// What `str::parse::<u64>` gives: an optional `+`, then one or more
/// decimal digits whose value fits.
pub open spec fn parse_u64(t: Seq<char>) -> Option<u64> {
    let d = if t.len() > 0 && t[0] == '+' {
        t.skip(1)
    } else {
        t
    };
    if d.len() > 0 && all_digits(d) && digits_value(d) <= u64::MAX {
        Some(digits_value(d) as u64)
    } else {
        None
    }
}

/// The size in bytes that `du -sk` printed: its first word, read as a
/// number of kibibytes (at most `u64::MAX` bytes); 0 when that word is no number.
pub open spec fn spec_du_bytes(out: Seq<char>) -> u64 {
    match parse_u64(first_word(out)) {
        Some(kb) => if kb * 1024 <= u64::MAX {
            (kb * 1024) as u64
        } else {
            u64::MAX
        },
        None => 0,
    }
}

proof fn lemma_digits_prefix(d: Seq<char>, k: int)
    requires
        0 <= k <= d.len(),
    ensures
        digits_value(d.subrange(0, k)) <= digits_value(d),
    decreases d.len() - k,
{
    if k < d.len() {
        lemma_digits_prefix(d, k + 1);
        assert(d.subrange(0, k + 1).drop_last() =~= d.subrange(0, k));
    } else {
        assert(d.subrange(0, k) =~= d);
    }
}

/// Finds where the run from `k` of characters whose whitespace-ness is `ws` ends.
fn find_run_end(s: &str, k: usize, ws: bool) -> (r: usize)
    requires
        k <= s@.len(),
    ensures
        r == run_end(s@, k as int, ws),
        k <= r <= s@.len(),
{
    let n = s.unicode_len();
    let mut i = k;
    while i < n && (is_ws_exec(s.get_char(i)) == ws)
        invariant
            k <= i <= n,
            n == s@.len(),
            run_end(s@, k as int, ws) == run_end(s@, i as int, ws),
        decreases n - i,
    {
        i += 1;
    }
    i
}

fn is_ws_exec(c: char) -> (r: bool)
    ensures
        r == is_ws(c),
{
    c == ' ' || ('\t' <= c && c <= '\r') || c == '\u{85}' || c == '\u{a0}' || c == '\u{1680}' || (
    '\u{2000}' <= c && c <= '\u{200a}') || c == '\u{2028}' || c == '\u{2029}' || c == '\u{202f}'
        || c == '\u{205f}' || c == '\u{3000}'
}

/// The size in bytes that the output of `du -sk` reports, or 0 when it
/// reports none.
pub fn du_bytes(output: &String) -> (r: u64)
    ensures
        r == spec_du_bytes(output@),
{
    let s = output.as_str();
    let start = find_run_end(s, 0, true);
    let end = find_run_end(s, start, false);
    let ghost t = s@.subrange(start as int, end as int);
    let mut i = start;
    if i < end && s.get_char(i) == '+' {
        i += 1;
    }
    let ghost d = if t.len() > 0 && t[0] == '+' {
        t.skip(1)
    } else {
        t
    };
    let first = i;
    assert(first_word(output@) == t);
    assert(d == s@.subrange(first as int, end as int));
    if first == end {
        return 0;
    }
    let mut value: u64 = 0;
    while i < end
        invariant
            start <= first <= i <= end <= s@.len(),
            d == s@.subrange(first as int, end as int),
            d == (if t.len() > 0 && t[0] == '+' {
                t.skip(1)
            } else {
                t
            }),
            first_word(output@) == t,
            value as nat == digits_value(d.subrange(0, i - first)),
            forall|j: int| 0 <= j < i - first ==> is_digit(#[trigger] d[j]),
        decreases end - i,
    {
        let c = s.get_char(i);
        if !(c >= '0' && c <= '9') {
            assert(d[i - first] == c);
            assert(!is_digit(d[i - first]));
            let ghost dd = if t.len() > 0 && t[0] == '+' {
                t.skip(1)
            } else {
                t
            };
            assert(dd == d);
            assert(!all_digits(dd));
            assert(parse_u64(t) is None);
            return 0;
        }
        let digit = (c as u32 - '0' as u32) as u64;
        proof {
            assert(d.subrange(0, i + 1 - first).drop_last() =~= d.subrange(0, i - first));
        }
        if value > (u64::MAX - digit) / 10 {
            proof {
                lemma_digits_prefix(d, i + 1 - first);
                assert(digits_value(d.subrange(0, i + 1 - first)) == 10 * value + digit);
                assert(10 * value + digit > u64::MAX) by (nonlinear_arith)
                    requires
                        value > (u64::MAX - digit) / 10,
                        digit <= 9,
                ;
                assert(parse_u64(t) is None);
            }
            return 0;
        }
        proof {
            assert(10 * value + digit <= u64::MAX) by (nonlinear_arith)
                requires
                    value <= (u64::MAX - digit) / 10,
                    digit <= 9,
            ;
        }
        value = value * 10 + digit;
        i += 1;
    }
    proof {
        assert(d.subrange(0, i - first) =~= d);
    }
    if value <= u64::MAX / 1024 {
        value * 1024
    } else {
        u64::MAX
    }
}

} // verus!
