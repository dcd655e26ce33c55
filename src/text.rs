use vstd::prelude::*;
use vstd::string::*;

verus! {

/// What `char::is_whitespace` answers: the Unicode `White_Space` property.
pub uninterp spec fn is_ws(c: char) -> bool;

/// Relies on `char::is_whitespace`, which depends on the character alone.
#[verifier::external_body]
pub(crate) fn char_is_whitespace(c: char) -> (r: bool)
    ensures
        r == is_ws(c),
{
    c.is_whitespace()
}

pub open spec fn is_digit(c: char) -> bool {
    '0' <= c && c <= '9'
}

pub open spec fn is_alpha(c: char) -> bool {
    ('a' <= c && c <= 'z') || ('A' <= c && c <= 'Z')
}

pub open spec fn is_ident_start(c: char) -> bool {
    c == '_' || is_alpha(c)
}

pub open spec fn is_ident_continue(c: char) -> bool {
    c == '_' || is_alpha(c) || is_digit(c)
}

/// Number of bytes that the UTF-8 encoding of `c` takes.
pub open spec fn utf8_width(c: char) -> nat {
    if (c as u32) < 0x80 {
        1
    } else if (c as u32) < 0x800 {
        2
    } else if (c as u32) < 0x10000 {
        3
    } else {
        4
    }
}

/// Number of bytes that the UTF-8 encoding of `s` takes.
pub open spec fn utf8_size(s: Seq<char>) -> nat
    decreases s.len(),
{
    if s.len() == 0 {
        0
    } else {
        utf8_size(s.drop_last()) + utf8_width(s.last())
    }
}

/// Byte offset of the character at index `k` of `s`.
pub open spec fn byte_offset(s: Seq<char>, k: int) -> nat {
    utf8_size(s.subrange(0, k))
}

/// `c` is the upper-case letter `u`, or its lower-case form.
pub open spec fn same_letter(c: char, u: char) -> bool {
    c == u || (c as u32) == (u as u32) + 32
}

/// A string holds only whitespace (it is empty once trimmed).
pub open spec fn blank(s: Seq<char>) -> bool {
    forall|i: int| 0 <= i < s.len() ==> is_ws(#[trigger] s[i])
}

/// `to_ascii_uppercase(w) == lit`.
pub open spec fn upper_matches(w: Seq<char>, lit: Seq<char>) -> bool {
    w.len() == lit.len() && forall|i: int|
        0 <= i < w.len() ==> if 'a' <= #[trigger] w[i] && w[i] <= 'z' {
            w[i] as u32 == lit[i] as u32 + 32
        } else {
            w[i] == lit[i]
        }
}

/// Index of the first character of `s` at or after `lo` that is not whitespace.
pub open spec fn trim_lo(s: Seq<char>, lo: int) -> int
    decreases s.len() - lo,
{
    if 0 <= lo < s.len() && is_ws(s[lo]) {
        trim_lo(s, lo + 1)
    } else {
        lo
    }
}

/// One past the last character of `s[..hi]` that is not whitespace.
pub open spec fn trim_hi(s: Seq<char>, hi: int) -> int
    decreases hi,
{
    if 0 < hi <= s.len() && is_ws(s[hi - 1]) {
        trim_hi(s, hi - 1)
    } else {
        hi
    }
}

/// `s` without leading and trailing whitespace.
pub open spec fn trimmed(s: Seq<char>) -> Seq<char> {
    let lo = trim_lo(s, 0);
    let hi = trim_hi(s, s.len() as int);
    if lo < hi {
        s.subrange(lo, hi)
    } else {
        Seq::empty()
    }
}

/// Value of a decimal digit.
pub open spec fn digit_val(c: char) -> nat {
    ((c as u32) - ('0' as u32)) as nat
}

/// Every character of `s` is an ASCII digit.
pub open spec fn all_digits(s: Seq<char>) -> bool {
    forall|i: int| 0 <= i < s.len() ==> is_digit(#[trigger] s[i])
}

/// The number that the digits `s` write in base ten.
pub open spec fn dec_value(s: Seq<char>) -> nat
    decreases s.len(),
{
    if s.len() == 0 {
        0
    } else {
        dec_value(s.drop_last()) * 10 + digit_val(s.last())
    }
}

/// What `usize::from_str` accepts: an optional `+`, then one or more digits
/// whose value fits.
pub open spec fn usize_of(s: Seq<char>) -> Option<nat> {
    let d = if s.len() > 0 && s[0] == '+' {
        s.drop_first()
    } else {
        s
    };
    if d.len() > 0 && all_digits(d) && dec_value(d) <= usize::MAX {
        Some(dec_value(d))
    } else {
        None
    }
}

proof fn lemma_dec_value_grows(s: Seq<char>, k: int)
    requires
        0 <= k <= s.len(),
    ensures
        dec_value(s.subrange(0, k)) <= dec_value(s),
    decreases s.len() - k,
{
    if k < s.len() {
        lemma_dec_value_grows(s, k + 1);
        assert(s.subrange(0, k + 1).drop_last() =~= s.subrange(0, k));
    } else {
        assert(s.subrange(0, k) =~= s);
    }
}

/// Reads `s[lo..hi]` as `usize::from_str` does.
pub fn parse_usize(s: &Vec<char>, lo: usize, hi: usize) -> (r: Option<usize>)
    requires
        lo <= hi <= s@.len(),
    ensures
        r matches Some(v) ==> usize_of(s@.subrange(lo as int, hi as int)) == Some(v as nat),
        r is None ==> usize_of(s@.subrange(lo as int, hi as int)) is None,
{
    let ghost w = s@.subrange(lo as int, hi as int);
    let mut i = lo;
    if i < hi && s[i] == '+' {
        i = i + 1;
    }
    let ghost d = s@.subrange(i as int, hi as int);
    proof {
        if w.len() > 0 && w[0] == '+' {
            assert(d =~= w.drop_first());
        } else {
            assert(d =~= w);
        }
    }
    if i >= hi {
        return None;
    }
    let start = i;
    let mut acc: usize = 0;
    while i < hi
        invariant
            start <= i <= hi <= s@.len(),
            d == s@.subrange(start as int, hi as int),
            w == s@.subrange(lo as int, hi as int),
            d == (if w.len() > 0 && w[0] == '+' {
                w.drop_first()
            } else {
                w
            }),
            all_digits(s@.subrange(start as int, i as int)),
            acc as nat == dec_value(s@.subrange(start as int, i as int)),
        decreases hi - i,
    {
        let c = s[i];
        if !char_is_digit(c) {
            proof {
                assert(d[i - start] == c);
            }
            return None;
        }
        let dv = (c as u32 - '0' as u32) as usize;
        let ghost next = s@.subrange(start as int, i + 1);
        proof {
            assert(next.drop_last() =~= s@.subrange(start as int, i as int));
            assert(all_digits(next));
        }
        match acc.checked_mul(10) {
            None => {
                proof {
                    lemma_dec_value_grows(d, i + 1 - start);
                    assert(d.subrange(0, i + 1 - start) =~= next);
                }
                return None;
            },
            Some(m) => match m.checked_add(dv) {
                None => {
                    proof {
                        lemma_dec_value_grows(d, i + 1 - start);
                        assert(d.subrange(0, i + 1 - start) =~= next);
                    }
                    return None;
                },
                Some(v) => {
                    acc = v;
                },
            },
        }
        i = i + 1;
    }
    proof {
        assert(s@.subrange(start as int, i as int) =~= d);
    }
    Some(acc)
}

/// Whether `s[lo..hi]`, upper-cased, is `lit`.
pub fn upper_matches_at(s: &Vec<char>, lo: usize, hi: usize, lit: &str) -> (r: bool)
    requires
        lo <= hi <= s@.len(),
    ensures
        r == upper_matches(s@.subrange(lo as int, hi as int), lit@),
{
    let l = chars_of(lit);
    if hi - lo != l.len() {
        return false;
    }
    let ghost w = s@.subrange(lo as int, hi as int);
    let mut i: usize = 0;
    while i < l.len()
        invariant
            l@ == lit@,
            hi - lo == l@.len(),
            lo <= hi <= s@.len(),
            w == s@.subrange(lo as int, hi as int),
            i <= l@.len(),
            forall|k: int|
                0 <= k < i ==> if 'a' <= #[trigger] w[k] && w[k] <= 'z' {
                    w[k] as u32 == l@[k] as u32 + 32
                } else {
                    w[k] == l@[k]
                },
        decreases l.len() - i,
    {
        let c = s[lo + i];
        let ok = if 'a' <= c && c <= 'z' {
            c as u32 - 32 == l[i] as u32
        } else {
            c == l[i]
        };
        if !ok {
            proof {
                assert(w[i as int] == c);
            }
            return false;
        }
        i = i + 1;
    }
    true
}

/// The bounds `[lo, hi)` of `s` without leading and trailing whitespace.
pub fn trim_bounds(s: &Vec<char>) -> (r: (usize, usize))
    ensures
        r.0 <= r.1 <= s@.len(),
        trimmed(s@) == s@.subrange(r.0 as int, r.1 as int),
{
    let mut lo: usize = 0;
    while lo < s.len() && char_is_whitespace(s[lo])
        invariant
            lo <= s@.len(),
            trim_lo(s@, 0) == trim_lo(s@, lo as int),
        decreases s.len() - lo,
    {
        lo = lo + 1;
    }
    let mut hi: usize = s.len();
    while hi > lo && char_is_whitespace(s[hi - 1])
        invariant
            lo <= hi <= s@.len(),
            trim_lo(s@, 0) == lo,
            forall|k: int| hi <= k < s@.len() ==> is_ws(#[trigger] s@[k]),
            trim_hi(s@, s@.len() as int) == trim_hi(s@, hi as int),
        decreases hi,
    {
        hi = hi - 1;
    }
    proof {
        if hi > lo {
            assert(trim_hi(s@, hi as int) == hi);
        } else {
            lemma_trim_hi_below(s@, hi as int, lo as int);
            assert(s@.subrange(lo as int, hi as int) =~= Seq::<char>::empty());
        }
    }
    (lo, hi)
}

proof fn lemma_trim_hi_below(s: Seq<char>, hi: int, lo: int)
    requires
        0 <= hi <= lo,
        hi <= s.len(),
    ensures
        trim_hi(s, hi) <= lo,
    decreases hi,
{
    if 0 < hi && is_ws(s[hi - 1]) {
        lemma_trim_hi_below(s, hi - 1, lo);
    }
}

pub fn char_is_digit(c: char) -> (r: bool)
    ensures
        r == is_digit(c),
{
    '0' <= c && c <= '9'
}

pub fn char_width(c: char) -> (r: usize)
    ensures
        r == utf8_width(c),
{
    let u = c as u32;
    if u < 0x80 {
        1
    } else if u < 0x800 {
        2
    } else if u < 0x10000 {
        3
    } else {
        4
    }
}

pub fn char_same_letter(c: char, u: char) -> (r: bool)
    requires
        'A' <= u && u <= 'Z',
    ensures
        r == same_letter(c, u),
{
    c == u || (c as u32) == (u as u32) + 32
}

/// The characters of `s`, in order.
pub fn chars_of(s: &str) -> (v: Vec<char>)
    ensures
        v@ == s@,
{
    let mut v: Vec<char> = Vec::new();
    for c in it: s.chars()
        invariant
            v@ == it.seq().subrange(0, it.index() as int),
    {
        v.push(c);
    }
    v
}

/// Whether `s` holds nothing but whitespace.
pub fn is_blank(s: &str) -> (r: bool)
    ensures
        r == blank(s@),
{
    let v = chars_of(s);
    let mut i: usize = 0;
    while i < v.len()
        invariant
            v@ == s@,
            i <= v.len(),
            forall|k: int| 0 <= k < i ==> is_ws(#[trigger] v@[k]),
        decreases v.len() - i,
    {
        if !char_is_whitespace(v[i]) {
            return false;
        }
        i = i + 1;
    }
    true
}

} // verus!
