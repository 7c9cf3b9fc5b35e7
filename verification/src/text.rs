use vstd::prelude::*;
use vstd::string::StrSliceExecFns;

use crate::csd_slice::{digits_value, lemma_split_extend, lemma_split_whole, split_on};

verus! {

/// The character of the decimal digit `d` (for `0 <= d < 10`).
pub open spec fn digit_char(d: int) -> char {
    (48 + d) as char
}

/// The decimal rendering of `n`, without sign or leading zeros.
pub open spec fn dec_chars(n: nat) -> Seq<char>
    decreases n,
{
    if n < 10 {
        seq![digit_char(n as int)]
    } else {
        dec_chars(n / 10).push(digit_char((n % 10) as int))
    }
}

/// The decimal rendering of `n` is a nonempty string of digits whose value is `n`.
pub proof fn lemma_dec_chars(n: nat)
    ensures
        dec_chars(n).len() > 0,
        forall|i: int|
            0 <= i < dec_chars(n).len() ==> '0' <= #[trigger] dec_chars(n)[i] && dec_chars(n)[i]
                <= '9',
        digits_value(dec_chars(n)) == n,
        dec_chars(n).len() == 1 || dec_chars(n)[0] != '0',
        n >= 10 ==> dec_chars(n).len() >= 2,
    decreases n,
{
    if n >= 10 {
        lemma_dec_chars(n / 10);
        assert(dec_chars(n).drop_last() =~= dec_chars(n / 10));
        assert(dec_chars(n)[0] == dec_chars(n / 10)[0]);
        if dec_chars(n / 10).len() == 1 {
            assert(n / 10 < 10);
            assert(dec_chars(n / 10)[0] == digit_char((n / 10) as int));
            assert(digit_char((n / 10) as int) as nat == 48 + n / 10);
        }
    } else {
        assert(dec_chars(n).drop_last() =~= Seq::<char>::empty());
    }
    let c = digit_char((n % 10) as int);
    assert(c as nat == 48 + n % 10);
    assert(dec_chars(n).last() == c);
    let d = dec_chars(n);
    assert(digits_value(d) == digits_value(d.drop_last()) * 10 + (d.last() as nat - 48) as nat);
    assert(digits_value(d.drop_last()) == n / 10);
    assert((d.last() as nat - 48) as nat == n % 10);
}

/// `String::push` from std: appends one character.
#[verifier::external_body]
pub(crate) fn string_push(s: &mut String, c: char)
    ensures
        final(s)@ == old(s)@.push(c),
{
    s.push(c);
}

/// Appends the decimal rendering of `n` to `s`.
pub fn push_decimal(s: &mut String, n: u64)
    ensures
        final(s)@ == old(s)@ + dec_chars(n as nat),
    decreases n,
{
    if n >= 10 {
        push_decimal(s, n / 10);
    }
    let d: u8 = (n % 10) as u8;
    let c: char = (48u8 + d) as char;
    string_push(s, c);
    assert(s@ =~= old(s)@ + dec_chars(n as nat)) by {
        if n >= 10 {
            assert(dec_chars(n as nat) == dec_chars((n / 10) as nat).push(digit_char((n % 10) as int)));
        }
    }
}

/// The characters of `s`, one by one.
pub fn str_chars(s: &str) -> (r: Vec<char>)
    ensures
        r@ == s@,
{
    let n = s.unicode_len();
    let mut r: Vec<char> = Vec::new();
    let mut i: usize = 0;
    while i < n
        invariant
            n == s@.len(),
            i <= n,
            r@ == s@.take(i as int),
        decreases n - i,
    {
        r.push(s.get_char(i));
        i = i + 1;
        assert(r@ =~= s@.take(i as int));
    }
    assert(s@.take(n as int) =~= s@);
    r
}

/// The items of a byte list as `{:?}` shows them: decimal, separated by `, `.
pub open spec fn list_body(b: Seq<u8>) -> Seq<char>
    decreases b.len(),
{
    if b.len() == 0 {
        Seq::empty()
    } else if b.len() == 1 {
        dec_chars(b[0] as nat)
    } else {
        list_body(b.drop_last()) + seq![',', ' '] + dec_chars(b.last() as nat)
    }
}

/// A byte list as `{:?}` shows it, e.g. `[1, 63]`.
pub open spec fn debug_bytes(b: Seq<u8>) -> Seq<char> {
    seq!['['] + list_body(b) + seq![']']
}

/// The `{:?}` form of a byte list holds only digits, `,`, ` `, `[` and `]`.
pub proof fn lemma_debug_bytes_chars(b: Seq<u8>)
    ensures
        forall|i: int|
            0 <= i < debug_bytes(b).len() ==> {
                let c = #[trigger] debug_bytes(b)[i];
                ('0' <= c && c <= '9') || c == ',' || c == ' ' || c == '[' || c == ']'
            },
{
    lemma_list_body_chars(b);
}

proof fn lemma_list_body_chars(b: Seq<u8>)
    ensures
        forall|i: int|
            0 <= i < list_body(b).len() ==> {
                let c = #[trigger] list_body(b)[i];
                ('0' <= c && c <= '9') || c == ',' || c == ' '
            },
    decreases b.len(),
{
    if b.len() == 1 {
        lemma_dec_chars(b[0] as nat);
    } else if b.len() > 1 {
        lemma_list_body_chars(b.drop_last());
        lemma_dec_chars(b.last() as nat);
        let l = list_body(b.drop_last());
        let d = dec_chars(b.last() as nat);
        assert forall|i: int| 0 <= i < list_body(b).len() implies {
            let c = #[trigger] list_body(b)[i];
            ('0' <= c && c <= '9') || c == ',' || c == ' '
        } by {
            if i < l.len() {
                assert(list_body(b)[i] == l[i]);
            } else if i >= l.len() + 2 {
                assert(list_body(b)[i] == d[i - l.len() - 2]);
            }
        }
    }
}

/// `body` lists the bytes of `b` as `{:?}` does: split at `,`, it has one
/// piece per byte, the first being the decimal form of `b[0]` and each other
/// a space followed by the decimal form of its byte; an empty list is empty.
pub open spec fn lists_decimals(body: Seq<char>, b: Seq<u8>) -> bool {
    if b.len() == 0 {
        body.len() == 0
    } else {
        let pieces = split_on(body, ',');
        &&& pieces.len() == b.len()
        &&& pieces[0] == dec_chars(b[0] as nat)
        &&& forall|k: int| 1 <= k < b.len() ==> #[trigger] pieces[k] == seq![' '] + dec_chars(b[k] as nat)
    }
}

/// A decimal form holds no `,`.
proof fn lemma_dec_chars_no_comma(n: nat)
    ensures
        !dec_chars(n).contains(','),
{
    lemma_dec_chars(n);
    if dec_chars(n).contains(',') {
        let i = choose|i: int| 0 <= i < dec_chars(n).len() && dec_chars(n)[i] == ',';
        assert('0' <= dec_chars(n)[i]);
    }
}

proof fn lemma_list_body_lists(b: Seq<u8>)
    ensures
        lists_decimals(list_body(b), b),
    decreases b.len(),
{
    if b.len() == 1 {
        lemma_dec_chars_no_comma(b[0] as nat);
        lemma_split_whole(dec_chars(b[0] as nat), ',');
    } else if b.len() > 1 {
        let bs = b.drop_last();
        lemma_list_body_lists(bs);
        let l = list_body(bs);
        let d = dec_chars(b.last() as nat);
        lemma_dec_chars_no_comma(b.last() as nat);
        let q = seq![' '] + d;
        assert(!q.contains(',')) by {
            if q.contains(',') {
                let i = choose|i: int| 0 <= i < q.len() && q[i] == ',';
                assert(d[i - 1] == ',');
            }
        }
        let lc = l.push(',');
        assert(lc.drop_last() =~= l);
        assert(split_on(lc, ',') == split_on(l, ',').push(Seq::<char>::empty()));
        assert(list_body(b) =~= lc + q);
        lemma_split_extend(lc, q, ',');
        assert(Seq::<char>::empty() + q =~= q);
        let pieces = split_on(list_body(b), ',');
        assert(pieces =~= split_on(l, ',').push(q));
        assert(pieces[0] == dec_chars(b[0] as nat)) by {
            assert(bs[0] == b[0]);
        }
        assert forall|k: int| 1 <= k < b.len() implies #[trigger] pieces[k] == seq![' '] + dec_chars(
            b[k] as nat,
        ) by {
            if k < b.len() - 1 {
                assert(bs[k] == b[k]);
                assert(pieces[k] == split_on(l, ',')[k]);
            }
        }
    }
}

/// The `{:?}` form of a byte list is `[`, then every byte of the list in
/// order, in decimal, separated by `, `, then `]`.
pub proof fn lemma_debug_bytes_lists_all(b: Seq<u8>)
    ensures
        debug_bytes(b).len() >= 2,
        debug_bytes(b)[0] == '[',
        debug_bytes(b).last() == ']',
        lists_decimals(debug_bytes(b).subrange(1, debug_bytes(b).len() - 1), b),
{
    lemma_list_body_lists(b);
    assert(debug_bytes(b).subrange(1, debug_bytes(b).len() - 1) =~= list_body(b));
}

/// Appends the `{:?}` form of the byte list `b` to `s`.
pub fn push_debug_bytes(s: &mut String, b: &[u8])
    ensures
        final(s)@ == old(s)@ + debug_bytes(b@),
{
    string_push(s, '[');
    let ghost start = s@;
    let mut i: usize = 0;
    while i < b.len()
        invariant
            i <= b@.len(),
            s@ == start + list_body(b@.take(i as int)),
        decreases b@.len() - i,
    {
        if i > 0 {
            string_push(s, ',');
            string_push(s, ' ');
        }
        push_decimal(s, b[i] as u64);
        proof {
            let t = b@.take(i + 1);
            assert(t.drop_last() =~= b@.take(i as int));
            if i == 0 {
                assert(list_body(b@.take(0)) =~= Seq::<char>::empty());
            }
            assert(s@ =~= start + list_body(t));
        }
        i = i + 1;
    }
    assert(b@.take(b@.len() as int) =~= b@);
    string_push(s, ']');
    assert(s@ =~= old(s)@ + debug_bytes(b@));
}

} // verus!
