use vstd::prelude::*;

use crate::error::JesdError;
use crate::text::{dec_chars, lemma_dec_chars, str_chars};

verus! {

/// `[` and `]`, the characters that are stripped from both ends of a CSD
/// slice text.
pub open spec fn is_bracket(c: char) -> bool {
    c == '[' || c == ']'
}

/// White space as `char::is_whitespace` defines it: the characters of the
/// Unicode `White_Space` property.
pub open spec fn is_white_space(c: char) -> bool {
    let u = c as u32;
    ||| 0x9 <= u <= 0xd
    ||| u == 0x20
    ||| u == 0x85
    ||| u == 0xa0
    ||| u == 0x1680
    ||| 0x2000 <= u <= 0x200a
    ||| u == 0x2028
    ||| u == 0x2029
    ||| u == 0x202f
    ||| u == 0x205f
    ||| u == 0x3000
}

/// The predicate by which a text is trimmed: brackets, or white space.
pub open spec fn trim_pred(brackets: bool) -> spec_fn(char) -> bool {
    if brackets {
        |c: char| is_bracket(c)
    } else {
        |c: char| is_white_space(c)
    }
}

/// `s` without its leading characters that satisfy `p`.
pub open spec fn trim_start_by(s: Seq<char>, p: spec_fn(char) -> bool) -> Seq<char>
    decreases s.len(),
{
    if s.len() > 0 && p(s[0]) {
        trim_start_by(s.drop_first(), p)
    } else {
        s
    }
}

/// `s` without its trailing characters that satisfy `p`.
pub open spec fn trim_end_by(s: Seq<char>, p: spec_fn(char) -> bool) -> Seq<char>
    decreases s.len(),
{
    if s.len() > 0 && p(s.last()) {
        trim_end_by(s.drop_last(), p)
    } else {
        s
    }
}

/// `s` without its leading and trailing characters that satisfy `p`.
pub open spec fn trim_by(s: Seq<char>, p: spec_fn(char) -> bool) -> Seq<char> {
    trim_end_by(trim_start_by(s, p), p)
}

/// The pieces of `s` between the occurrences of `sep`, as `str::split` gives
/// them: always at least one piece, and one more than `sep` occurs.
pub open spec fn split_on(s: Seq<char>, sep: char) -> Seq<Seq<char>>
    decreases s.len(),
{
    if s.len() == 0 {
        seq![Seq::<char>::empty()]
    } else {
        let parts = split_on(s.drop_last(), sep);
        if s.last() == sep {
            parts.push(Seq::<char>::empty())
        } else {
            parts.update(parts.len() - 1, parts.last().push(s.last()))
        }
    }
}

/// `c` is one of `'0'..='9'`.
pub open spec fn is_digit(c: char) -> bool {
    '0' <= c && c <= '9'
}

/// The value of a string of decimal digits.
pub open spec fn digits_value(d: Seq<char>) -> nat
    decreases d.len(),
{
    if d.len() == 0 {
        0
    } else {
        digits_value(d.drop_last()) * 10 + (d.last() as nat - 48) as nat
    }
}

/// `s` without one leading `+`, if it has one.
pub open spec fn unsigned_digits(s: Seq<char>) -> Seq<char> {
    if s.len() > 0 && s[0] == '+' {
        s.drop_first()
    } else {
        s
    }
}

/// Every character of `d` is a decimal digit.
pub open spec fn all_digits(d: Seq<char>) -> bool {
    forall|i: int| 0 <= i < d.len() ==> is_digit(#[trigger] d[i])
}

/// What `str::parse::<u16>` gives: an optional `+`, then one or more decimal
/// digits whose value is at most `u16::MAX`; nothing else is accepted.
pub open spec fn spec_parse_u16(s: Seq<char>) -> Option<u16> {
    let d = unsigned_digits(s);
    if d.len() > 0 && all_digits(d) && digits_value(d) <= u16::MAX {
        Some(digits_value(d) as u16)
    } else {
        None
    }
}

/// A CSD slice bound: the piece trimmed of white space, read as a `u16`.
pub open spec fn spec_bound(part: Seq<char>) -> Option<u16> {
    spec_parse_u16(trim_by(part, trim_pred(false)))
}

/// What a CSD slice text stands for: `[start:end]` gives `[start, end]`,
/// `[num]` gives `[num]`. Brackets are stripped from both ends, the rest is
/// split at `:`, and each piece is trimmed of white space and read as a
/// `u16`.
pub open spec fn spec_parse_csd_slice(s: Seq<char>) -> Result<Seq<u16>, JesdError> {
    let parts = split_on(trim_by(s, trim_pred(true)), ':');
    if parts.len() == 2 {
        match (spec_bound(parts[0]), spec_bound(parts[1])) {
            (Some(a), Some(b)) => Ok(seq![a, b]),
            _ => Err(JesdError::InvalidInteger),
        }
    } else if parts.len() == 1 {
        match spec_bound(parts[0]) {
            Some(a) => Ok(seq![a]),
            None => Err(JesdError::InvalidInteger),
        }
    } else {
        Err(JesdError::InvalidCsdFormat)
    }
}

/// A text with neither end satisfying `p` is left as it is by trimming.
proof fn lemma_trim_keeps(s: Seq<char>, p: spec_fn(char) -> bool)
    requires
        s.len() > 0,
        !p(s[0]),
        !p(s.last()),
    ensures
        trim_by(s, p) == s,
{
}

/// A text without `sep` is one piece.
pub proof fn lemma_split_whole(s: Seq<char>, sep: char)
    requires
        !s.contains(sep),
    ensures
        split_on(s, sep) == seq![s],
    decreases s.len(),
{
    if s.len() > 0 {
        assert(!s.drop_last().contains(sep)) by {
            if s.drop_last().contains(sep) {
                let i = choose|i: int| 0 <= i < s.drop_last().len() && s.drop_last()[i] == sep;
                assert(s[i] == sep);
            }
        }
        lemma_split_whole(s.drop_last(), sep);
        assert(s.last() != sep) by {
            assert(s[s.len() - 1] == s.last());
        }
        assert(s.drop_last().push(s.last()) =~= s);
        assert(split_on(s, sep) =~= seq![s]);
    } else {
        assert(s =~= Seq::<char>::empty());
    }
}

/// Appending a text without `sep` extends the last piece.
pub proof fn lemma_split_extend(p: Seq<char>, q: Seq<char>, sep: char)
    requires
        !q.contains(sep),
    ensures
        split_on(p + q, sep) == split_on(p, sep).update(
            split_on(p, sep).len() - 1,
            split_on(p, sep).last() + q,
        ),
    decreases q.len(),
{
    lemma_split_nonempty(p, sep);
    if q.len() == 0 {
        assert(p + q =~= p);
        assert(split_on(p, sep).last() + q =~= split_on(p, sep).last());
        assert(split_on(p, sep).update(split_on(p, sep).len() - 1, split_on(p, sep).last())
            =~= split_on(p, sep));
    } else {
        let q0 = q.drop_last();
        assert(!q0.contains(sep)) by {
            if q0.contains(sep) {
                let i = choose|i: int| 0 <= i < q0.len() && q0[i] == sep;
                assert(q[i] == sep);
            }
        }
        assert(q.last() != sep) by {
            assert(q[q.len() - 1] == q.last());
        }
        lemma_split_extend(p, q0, sep);
        assert((p + q).drop_last() =~= p + q0);
        assert((p + q).last() == q.last());
        lemma_split_nonempty(p + q0, sep);
        assert((split_on(p, sep).last() + q0).push(q.last()) =~= split_on(p, sep).last() + q);
        assert(split_on(p + q, sep) =~= split_on(p, sep).update(
            split_on(p, sep).len() - 1,
            split_on(p, sep).last() + q,
        ));
    }
}

/// There is always at least one piece.
pub proof fn lemma_split_nonempty(s: Seq<char>, sep: char)
    ensures
        split_on(s, sep).len() >= 1,
    decreases s.len(),
{
    if s.len() > 0 {
        lemma_split_nonempty(s.drop_last(), sep);
    }
}

/// The decimal rendering of a `u16` is read back as that number, also after
/// trimming white space.
proof fn lemma_bound_of_decimal(n: u16)
    ensures
        spec_bound(dec_chars(n as nat)) == Some(n),
        !dec_chars(n as nat).contains(':'),
        !is_bracket(dec_chars(n as nat)[0]),
        !is_bracket(dec_chars(n as nat).last()),
{
    let d = dec_chars(n as nat);
    lemma_dec_chars(n as nat);
    assert(d[d.len() - 1] == d.last());
    lemma_trim_keeps(d, trim_pred(false));
    assert(unsigned_digits(d) == d);
    assert(all_digits(d)) by {
        assert forall|i: int| 0 <= i < d.len() implies is_digit(#[trigger] d[i]) by {
            assert('0' <= d[i] && d[i] <= '9');
        }
    }
    assert(!d.contains(':')) by {
        if d.contains(':') {
            let i = choose|i: int| 0 <= i < d.len() && d[i] == ':';
            assert('0' <= d[i] && d[i] <= '9');
        }
    }
}

/// The one-bound form `[num]` of a CSD slice text, with `num` in decimal, is
/// read as `[num]`.
pub proof fn lemma_parse_csd_slice_single(num: u16)
    ensures
        spec_parse_csd_slice(seq!['['] + dec_chars(num as nat) + seq![']']) == Ok::<
            Seq<u16>,
            JesdError,
        >(seq![num]),
{
    let x = dec_chars(num as nat);
    lemma_bound_of_decimal(num);
    lemma_bracket_trim(x);
    lemma_split_whole(x, ':');
}

/// The two-bound form `[start:end]` of a CSD slice text, with the bounds in
/// decimal, is read as `[start, end]`.
pub proof fn lemma_parse_csd_slice_pair(start: u16, end: u16)
    ensures
        spec_parse_csd_slice(
            seq!['['] + dec_chars(start as nat) + seq![':'] + dec_chars(end as nat) + seq![']'],
        ) == Ok::<Seq<u16>, JesdError>(seq![start, end]),
{
    let a = dec_chars(start as nat);
    let b = dec_chars(end as nat);
    lemma_bound_of_decimal(start);
    lemma_bound_of_decimal(end);
    let x = a + seq![':'] + b;
    assert(x[0] == a[0]);
    assert(x.last() == b.last());
    lemma_bracket_trim(x);
    assert(seq!['['] + a + seq![':'] + b + seq![']'] =~= seq!['['] + x + seq![']']);
    lemma_split_whole(a, ':');
    assert(a + seq![':'] =~= a.push(':'));
    assert((a + seq![':']).drop_last() =~= a);
    assert(split_on(a + seq![':'], ':') =~= seq![a, Seq::<char>::empty()]);
    lemma_split_extend(a + seq![':'], b, ':');
    assert(Seq::<char>::empty() + b =~= b);
    assert(split_on(x, ':') =~= seq![a, b]);
}

/// Stripping the brackets of `[x]` gives `x` when `x` neither starts nor ends
/// with a bracket.
proof fn lemma_bracket_trim(x: Seq<char>)
    requires
        x.len() > 0,
        !is_bracket(x[0]),
        !is_bracket(x.last()),
    ensures
        trim_by(seq!['['] + x + seq![']'], trim_pred(true)) == x,
{
    let p = trim_pred(true);
    let s = seq!['['] + x + seq![']'];
    assert(s.drop_first() =~= x + seq![']']);
    assert((x + seq![']'])[0] == x[0]);
    assert(s[0] == '[');
    assert(p(s[0]));
    assert(trim_start_by(s, p) == trim_start_by(s.drop_first(), p));
    assert(!p((x + seq![']'])[0]));
    assert(trim_start_by(x + seq![']'], p) == x + seq![']']);
    assert(trim_start_by(s, p) == x + seq![']']);
    assert((x + seq![']']).drop_last() =~= x);
    assert(trim_end_by(x + seq![']'], p) == trim_end_by(x, p));
    assert(x[x.len() - 1] == x.last());
}

fn satisfies(c: char, brackets: bool) -> (r: bool)
    ensures
        r == trim_pred(brackets)(c),
{
    if brackets {
        c == '[' || c == ']'
    } else {
        let u = c as u32;
        (0x9 <= u && u <= 0xd) || u == 0x20 || u == 0x85 || u == 0xa0 || u == 0x1680 || (0x2000
            <= u && u <= 0x200a) || u == 0x2028 || u == 0x2029 || u == 0x202f || u == 0x205f || u
            == 0x3000
    }
}

/// The bounds of `s[lo..hi]` trimmed by `trim_pred(brackets)`.
fn trim_span(s: &Vec<char>, lo: usize, hi: usize, brackets: bool) -> (r: (usize, usize))
    requires
        lo <= hi <= s@.len(),
    ensures
        lo <= r.0 <= r.1 <= hi,
        s@.subrange(r.0 as int, r.1 as int) == trim_by(
            s@.subrange(lo as int, hi as int),
            trim_pred(brackets),
        ),
{
    let ghost p = trim_pred(brackets);
    let ghost whole = s@.subrange(lo as int, hi as int);
    let mut a = lo;
    while a < hi && satisfies(s[a], brackets)
        invariant
            lo <= a <= hi <= s@.len(),
            p == trim_pred(brackets),
            trim_start_by(whole, p) == trim_start_by(s@.subrange(a as int, hi as int), p),
        decreases hi - a,
    {
        assert(s@.subrange(a as int, hi as int).drop_first() =~= s@.subrange(
            a + 1,
            hi as int,
        ));
        a = a + 1;
    }
    let ghost front = s@.subrange(a as int, hi as int);
    assert(trim_start_by(front, p) == front);
    let mut b = hi;
    while b > a && satisfies(s[b - 1], brackets)
        invariant
            lo <= a <= b <= hi <= s@.len(),
            p == trim_pred(brackets),
            front == s@.subrange(a as int, hi as int),
            trim_end_by(front, p) == trim_end_by(s@.subrange(a as int, b as int), p),
        decreases b - a,
    {
        assert(s@.subrange(a as int, b as int).drop_last() =~= s@.subrange(
            a as int,
            b - 1,
        ));
        b = b - 1;
    }
    (a, b)
}

/// Reads `s[lo..hi]` as `str::parse::<u16>` does.
fn parse_u16_span(s: &Vec<char>, lo: usize, hi: usize) -> (r: Option<u16>)
    requires
        lo <= hi <= s@.len(),
    ensures
        r == spec_parse_u16(s@.subrange(lo as int, hi as int)),
{
    let ghost whole = s@.subrange(lo as int, hi as int);
    let mut i = lo;
    if i < hi && s[i] == '+' {
        i = i + 1;
    }
    let ghost d = s@.subrange(i as int, hi as int);
    assert(d =~= unsigned_digits(whole));
    if i == hi {
        return None;
    }
    let mut acc: u32 = 0;
    let mut j = i;
    while j < hi
        invariant
            lo <= i <= j <= hi <= s@.len(),
            d == s@.subrange(i as int, hi as int),
            whole == s@.subrange(lo as int, hi as int),
            d == unsigned_digits(whole),
            forall|k: int| 0 <= k < j - i ==> is_digit(#[trigger] d[k]),
            acc as nat == if digits_value(d.take(j - i)) <= 65536 {
                digits_value(d.take(j - i))
            } else {
                65536
            },
        decreases hi - j,
    {
        let c = s[j];
        assert(d[j - i] == c);
        if !('0' <= c && c <= '9') {
            assert(!is_digit(d[j - i]));
            assert(!all_digits(d));
            assert(spec_parse_u16(whole) is None);
            return None;
        }
        let digit: u32 = (c as u32) - 48;
        assert(d.take(j - i + 1).drop_last() =~= d.take(j - i));
        let next: u32 = acc * 10 + digit;
        acc = if next > 65536 {
            65536
        } else {
            next
        };
        j = j + 1;
    }
    assert(d.take(j - i) =~= d);
    if acc > 65535 {
        None
    } else {
        Some(acc as u16)
    }
}

/// Reads a bound of a CSD slice: `s[lo..hi]` trimmed of white space, as a
/// `u16`.
fn bound_span(s: &Vec<char>, lo: usize, hi: usize) -> (r: Option<u16>)
    requires
        lo <= hi <= s@.len(),
    ensures
        r == spec_bound(s@.subrange(lo as int, hi as int)),
{
    let (a, b) = trim_span(s, lo, hi, false);
    parse_u16_span(s, a, b)
}

/// Reads a CSD slice text such as `"[511:506]"` or `"[505]"`: the bounds it
/// names, in the order they are written.
pub fn parse_csd_slice(s: &str) -> (r: Result<Vec<u16>, JesdError>)
    ensures
        match r {
            Ok(v) => spec_parse_csd_slice(s@) == Ok::<Seq<u16>, JesdError>(v@),
            Err(e) => spec_parse_csd_slice(s@) == Err::<Seq<u16>, JesdError>(e),
        },
{
    let chars = str_chars(s);
    let n = chars.len();
    let (a, b) = trim_span(&chars, 0, n, true);
    assert(chars@.subrange(0, n as int) =~= s@);
    let ghost t = chars@.subrange(a as int, b as int);
    // The pieces before the last `:` seen so far, as bounds into `chars`.
    let mut starts: Vec<usize> = Vec::new();
    let mut ends: Vec<usize> = Vec::new();
    let mut cur = a;
    let mut j = a;
    assert(t.take(0) =~= Seq::<char>::empty());
    assert(chars@.subrange(a as int, a as int) =~= Seq::<char>::empty());
    assert(split_on(Seq::<char>::empty(), ':') == seq![Seq::<char>::empty()]);
    while j < b
        invariant
            a <= cur <= j <= b <= n == chars@.len(),
            t == chars@.subrange(a as int, b as int),
            starts@.len() == ends@.len(),
            forall|k: int| 0 <= k < starts@.len() ==> a <= #[trigger] starts@[k],
            forall|k: int| 0 <= k < starts@.len() ==> starts@[k] <= #[trigger] ends@[k] <= cur,
            split_on(t.take(j - a), ':') =~= Seq::new(
                starts@.len() as nat,
                |k: int| chars@.subrange(starts@[k] as int, ends@[k] as int),
            ).push(chars@.subrange(cur as int, j as int)),
        decreases b - j,
    {
        assert(t.take(j - a + 1).drop_last() =~= t.take(j - a));
        assert(t.take(j - a + 1).last() == chars@[j as int]);
        if chars[j] == ':' {
            starts.push(cur);
            ends.push(j);
            cur = j + 1;
            assert(chars@.subrange(j + 1, j + 1) =~= Seq::<char>::empty());
        } else {
            assert(chars@.subrange(cur as int, j + 1) =~= chars@.subrange(cur as int, j as int).push(
                chars@[j as int],
            ));
        }
        j = j + 1;
    }
    assert(t.take(b - a) =~= t);
    let ghost parts = split_on(t, ':');
    let count = starts.len();
    if count == 1 {
        assert(parts[0] == chars@.subrange(starts@[0] as int, ends@[0] as int));
        assert(parts[1] == chars@.subrange(cur as int, b as int));
        let start = bound_span(&chars, starts[0], ends[0]);
        let end = bound_span(&chars, cur, b);
        match (start, end) {
            (Some(x), Some(y)) => {
                let mut v: Vec<u16> = Vec::new();
                v.push(x);
                v.push(y);
                assert(v@ =~= seq![x, y]);
                Ok(v)
            },
            _ => Err(JesdError::InvalidInteger),
        }
    } else if count == 0 {
        assert(parts[0] == chars@.subrange(cur as int, b as int));
        match bound_span(&chars, cur, b) {
            Some(x) => {
                let mut v: Vec<u16> = Vec::new();
                v.push(x);
                assert(v@ =~= seq![x]);
                Ok(v)
            },
            None => Err(JesdError::InvalidInteger),
        }
    } else {
        Err(JesdError::InvalidCsdFormat)
    }
}

} // verus!
