use vstd::prelude::*;

use crate::error::JesdError;
use vstd::string::{StringExecFns, StringSliceAdditionalSpecFns};
use vstd::utf8::{encode_utf8, is_ascii_chars, is_ascii_chars_encode_utf8};

verus! {

/// The number of bytes of an extended CSD register.
pub const CSD_BYTES: usize = 512;

/// The number of hex digits of a register dump.
pub const DUMP_DIGITS: usize = 1024;

/// The uppercase form of a text, as `str::to_uppercase` computes it
/// (by the Unicode case mapping).
pub uninterp spec fn spec_to_uppercase(s: Seq<char>) -> Seq<char>;

/// The uppercase form of an ASCII character: `a` to `z` become `A` to `Z`,
/// every other character stays.
pub open spec fn ascii_upper(c: char) -> char {
    if 'a' <= c && c <= 'z' {
        ((c as u32) - 32) as char
    } else {
        c
    }
}

/// `str::to_uppercase` from std. Claimed: the result is the uppercase form
/// of `s`, a function of the characters of `s` alone; for an ASCII text it
/// is the text with `a` to `z` made `A` to `Z`. What the form is for other
/// characters is not stated here.
#[verifier::external_body]
fn str_to_uppercase(s: &str) -> (r: String)
    ensures
        r@ == spec_to_uppercase(s@),
        is_ascii_chars(s@) ==> r@ == s@.map_values(|c: char| ascii_upper(c)),
{
    s.to_uppercase()
}

/// The bytes of a dump text without its one trailing newline, if it has one.
pub open spec fn trim_newline(b: Seq<u8>) -> Seq<u8> {
    if b.len() > 0 && b.last() == 10 {
        b.drop_last()
    } else {
        b
    }
}

/// The value that a digit byte stands for: `'0'..='9'` are 0 to 9 and
/// `'A'..` count on from 10.
pub open spec fn nibble(c: u8) -> int {
    if c <= 57 {
        c - 48
    } else {
        c - 55
    }
}

/// Every byte is at least `'0'`, so that taking its digit value stays in range.
pub open spec fn all_digit_bytes(b: Seq<u8>) -> bool {
    forall|i: int| 0 <= i < b.len() ==> 48 <= #[trigger] b[i]
}

/// The digit values of the bytes of a dump text.
pub open spec fn spec_num_array(b: Seq<u8>) -> Seq<u8> {
    trim_newline(b).map_values(|c: u8| nibble(c) as u8)
}

/// The byte made of a high digit and a low digit: the low four bits of `hi`
/// shifted up by four, plus `lo`.
pub open spec fn pack(hi: u8, lo: u8) -> int {
    (hi % 16) * 16 + lo
}

/// Every pair of digits makes a value that fits in a byte.
pub open spec fn pairs_fit(n: Seq<u8>) -> bool {
    forall|k: int| 0 <= k < n.len() / 2 ==> #[trigger] pack(n[2 * k], n[2 * k + 1]) <= 255
}

/// Digits taken two by two, each pair made into one byte; an unpaired last
/// digit is dropped.
pub open spec fn spec_byte_array(n: Seq<u8>) -> Seq<u8> {
    Seq::new(n.len() / 2, |k: int| pack(n[2 * k], n[2 * k + 1]) as u8)
}

/// Decoding the dump text with bytes `b` stays within the range of a byte at
/// every step: when the text has the right length, every byte is at least
/// `'0'` and every pair of digit values makes a byte.
pub open spec fn decodable(b: Seq<u8>) -> bool {
    trim_newline(b).len() == DUMP_DIGITS ==> {
        &&& all_digit_bytes(trim_newline(b))
        &&& pairs_fit(spec_num_array(b))
    }
}

/// What decoding a dump text with bytes `b` gives: the register bytes, or the
/// error for a text of the wrong length.
pub open spec fn spec_decode(b: Seq<u8>) -> Result<Seq<u8>, JesdError> {
    if trim_newline(b).len() == DUMP_DIGITS {
        Ok(spec_byte_array(spec_num_array(b)))
    } else {
        Err(JesdError::WrongContentLength)
    }
}

/// An extended CSD register dump: 512 bytes.
#[derive(Debug)]
pub struct Jesd84B51 {
    pub bytes: [u8; 512],
}

proof fn lemma_shift_pack(hi: u8, lo: u8)
    requires
        pack(hi, lo) <= 255,
    ensures
        (hi << 4u8) as int + lo as int == pack(hi, lo),
{
    assert(hi << 4u8 == (hi % 16) * 16) by (bit_vector);
}

/// Whether decoding the text with bytes `content` stays within the range of
/// a byte (see `decodable`).
pub fn is_decodable(content: &[u8]) -> (r: bool)
    ensures
        r == decodable(content@),
{
    let ghost all = content@;
    let mut len = content.len();
    if len > 0 && content[len - 1] == 10 {
        len = len - 1;
    }
    assert(content@.take(len as int) =~= trim_newline(all));
    if len != DUMP_DIGITS {
        return true;
    }
    let mut i: usize = 0;
    while i < len
        invariant
            len == DUMP_DIGITS,
            content@ == all,
            content@.take(len as int) == trim_newline(all),
            len <= content@.len(),
            i <= len,
            forall|j: int| 0 <= j < i ==> 48 <= #[trigger] trim_newline(all)[j],
        decreases len - i,
    {
        assert(trim_newline(all)[i as int] == content@[i as int]);
        if content[i] < 48 {
            assert(!all_digit_bytes(trim_newline(all)));
            return false;
        }
        i = i + 1;
    }
    assert(all_digit_bytes(trim_newline(all)));
    let mut k: usize = 0;
    while k < len / 2
        invariant
            len == DUMP_DIGITS,
            content@ == all,
            content@.take(len as int) == trim_newline(all),
            all_digit_bytes(trim_newline(all)),
            len <= content@.len(),
            k <= len / 2,
            forall|j: int|
                0 <= j < k ==> #[trigger] pack(
                    spec_num_array(all)[2 * j],
                    spec_num_array(all)[2 * j + 1],
                ) <= 255,
        decreases len / 2 - k,
    {
        let a = content[2 * k];
        let b = content[2 * k + 1];
        assert(trim_newline(all)[2 * k as int] == a);
        assert(trim_newline(all)[2 * k as int + 1] == b);
        let hi: u8 = if a <= 57 {
            a - 48
        } else {
            a - 55
        };
        let lo: u8 = if b <= 57 {
            b - 48
        } else {
            b - 55
        };
        assert(spec_num_array(all)[2 * k as int] == hi);
        assert(spec_num_array(all)[2 * k as int + 1] == lo);
        if (hi % 16) as u16 * 16 + lo as u16 > 255 {
            assert(spec_num_array(all).len() == DUMP_DIGITS);
            assert(pack(spec_num_array(all)[2 * k as int], spec_num_array(all)[2 * k as int + 1])
                > 255);
            assert(!pairs_fit(spec_num_array(all)));
            return false;
        }
        k = k + 1;
    }
    true
}

/// `c` is an uppercase hex digit, `0-9` or `A-F`.
pub open spec fn is_upper_hex(c: u8) -> bool {
    (48 <= c <= 57) || (65 <= c <= 70)
}

/// A dump of 1024 uppercase hex digits (and optionally one trailing newline)
/// decodes without fault, byte `k` being the value of digits `2k` and
/// `2k + 1` read as a two-digit hex number.
pub proof fn lemma_hex_dump_decodes(b: Seq<u8>)
    requires
        trim_newline(b).len() == DUMP_DIGITS,
        forall|i: int| 0 <= i < trim_newline(b).len() ==> is_upper_hex(#[trigger] trim_newline(b)[i]),
    ensures
        decodable(b),
        spec_decode(b) == Ok::<Seq<u8>, JesdError>(
            Seq::new(
                CSD_BYTES as nat,
                |k: int|
                    (nibble(trim_newline(b)[2 * k]) * 16 + nibble(trim_newline(b)[2 * k + 1])) as u8,
            ),
        ),
{
    let t = trim_newline(b);
    let n = spec_num_array(b);
    assert forall|i: int| 0 <= i < t.len() implies 48 <= #[trigger] t[i] by {
        assert(is_upper_hex(t[i]));
    }
    assert forall|i: int| 0 <= i < n.len() implies #[trigger] n[i] < 16 && n[i] == nibble(t[i]) by {
        assert(is_upper_hex(t[i]));
    }
    assert forall|k: int| 0 <= k < n.len() / 2 implies #[trigger] pack(n[2 * k], n[2 * k + 1])
        <= 255 by {
        assert(n[2 * k] < 16 && n[2 * k + 1] < 16);
    }
    assert(spec_byte_array(n) =~= Seq::new(
        CSD_BYTES as nat,
        |k: int| (nibble(t[2 * k]) * 16 + nibble(t[2 * k + 1])) as u8,
    ));
}

/// Decoding always gives the 512 bytes of a register.
pub proof fn lemma_decode_len(b: Seq<u8>)
    ensures
        spec_decode(b) matches Ok(bytes) ==> bytes.len() == CSD_BYTES,
{
}

/// `c` is a hex digit of either case: `0-9`, `a-f` or `A-F`.
pub open spec fn is_hex_char(c: char) -> bool {
    ('0' <= c && c <= '9') || ('a' <= c && c <= 'f') || ('A' <= c && c <= 'F')
}

/// The value of a hex digit of either case.
pub open spec fn hex_char_value(c: char) -> int {
    if c <= '9' {
        c as int - 48
    } else if c <= 'F' {
        c as int - 55
    } else {
        c as int - 87
    }
}

/// The characters of a dump text without its one trailing newline, if it
/// has one.
pub open spec fn trim_newline_chars(s: Seq<char>) -> Seq<char> {
    if s.len() > 0 && s.last() == '\n' {
        s.drop_last()
    } else {
        s
    }
}

/// A dump text of 1024 hex digits of either case, optionally followed by
/// one newline.
pub open spec fn is_hex_dump(s: Seq<char>) -> bool {
    &&& trim_newline_chars(s).len() == DUMP_DIGITS
    &&& forall|i: int|
        0 <= i < trim_newline_chars(s).len() ==> is_hex_char(#[trigger] trim_newline_chars(s)[i])
}

/// The register bytes that a hex dump names: byte `k` is digits `2k` and
/// `2k + 1` read as a two-digit hex number.
pub open spec fn hex_dump_bytes(s: Seq<char>) -> Seq<u8> {
    Seq::new(
        CSD_BYTES as nat,
        |k: int|
            (hex_char_value(trim_newline_chars(s)[2 * k]) * 16 + hex_char_value(
                trim_newline_chars(s)[2 * k + 1],
            )) as u8,
    )
}

/// Turning a hex dump of either case to uppercase gives a text that decodes
/// without fault to the bytes the dump names.
proof fn lemma_upper_hex_dump(s: Seq<char>, up: Seq<char>)
    requires
        is_hex_dump(s),
        up == s.map_values(|c: char| ascii_upper(c)),
    ensures
        decodable(encode_utf8(up)),
        spec_decode(encode_utf8(up)) == Ok::<Seq<u8>, JesdError>(hex_dump_bytes(s)),
{
    let t = trim_newline_chars(s);
    assert(is_ascii_chars(up)) by {
        assert forall|i: int| 0 <= i < up.len() implies '\0' <= #[trigger] up[i] <= '\u{7f}' by {
            if s.len() > 0 && s.last() == '\n' && i == s.len() - 1 {
                assert(s[i] == '\n');
            } else {
                assert(t[i] == s[i]);
                assert(is_hex_char(t[i]));
            }
        }
    }
    is_ascii_chars_encode_utf8(up);
    let b = encode_utf8(up);
    let tb = trim_newline(b);
    assert(b.len() == s.len());
    assert(s.len() > 0 && s.last() == '\n' <==> b.len() > 0 && b.last() == 10) by {
        if s.len() > 0 {
            assert(up[s.len() - 1] as u8 == b[s.len() - 1]);
            assert(s[s.len() - 1] == s.last());
        }
    }
    assert(tb.len() == t.len());
    assert forall|i: int| 0 <= i < tb.len() implies is_upper_hex(#[trigger] tb[i]) && nibble(tb[i])
        == hex_char_value(t[i]) by {
        assert(tb[i] == b[i]);
        assert(up[i] as u8 == b[i]);
        assert(t[i] == s[i]);
        assert(is_hex_char(t[i]));
    }
    lemma_hex_dump_decodes(b);
    assert(Seq::new(
        CSD_BYTES as nat,
        |k: int| (nibble(tb[2 * k]) * 16 + nibble(tb[2 * k + 1])) as u8,
    ) =~= hex_dump_bytes(s)) by {
        assert forall|k: int| 0 <= k < CSD_BYTES implies (nibble(tb[2 * k]) * 16 + nibble(
            tb[2 * k + 1],
        )) as u8 == #[trigger] hex_dump_bytes(s)[k] by {
            assert(nibble(tb[2 * k]) == hex_char_value(t[2 * k]));
            assert(nibble(tb[2 * k + 1]) == hex_char_value(t[2 * k + 1]));
        }
    }
}

impl Jesd84B51 {
    /// The digit values of the bytes of `str_line`, after one trailing newline is
    /// dropped; an error when there are not 1024 of them.
    pub fn get_num_array(str_line: String) -> (r: Result<Vec<u8>, JesdError>)
        requires
            trim_newline(encode_utf8(str_line@)).len() == DUMP_DIGITS ==> all_digit_bytes(
                trim_newline(encode_utf8(str_line@)),
            ),
        ensures
            match r {
                Ok(v) => trim_newline(encode_utf8(str_line@)).len() == DUMP_DIGITS && v@
                    == spec_num_array(encode_utf8(str_line@)),
                Err(e) => trim_newline(encode_utf8(str_line@)).len() != DUMP_DIGITS && e
                    == JesdError::WrongContentLength,
            },
    {
        let content = str_line.as_str().as_bytes();
        let ghost all = content@;
        let mut len = content.len();
        if len > 0 && content[len - 1] == 10 {
            len = len - 1;
        }
        assert(content@.take(len as int) =~= trim_newline(all));
        if len != DUMP_DIGITS {
            return Err(JesdError::WrongContentLength);
        }
        let mut v: Vec<u8> = Vec::new();
        let mut i: usize = 0;
        while i < len
            invariant
                len == DUMP_DIGITS,
                content@ == all,
                content@.take(len as int) == trim_newline(all),
                all_digit_bytes(trim_newline(all)),
                len <= content@.len(),
                i <= len,
                v@ == trim_newline(all).take(i as int).map_values(|c: u8| nibble(c) as u8),
            decreases len - i,
        {
            let c = content[i];
            assert(trim_newline(all)[i as int] == c);
            let d: u8 = if c <= 57 {
                c - 48
            } else {
                c - 55
            };
            v.push(d);
            i = i + 1;
            assert(v@ =~= trim_newline(all).take(i as int).map_values(|c: u8| nibble(c) as u8));
        }
        assert(trim_newline(all).take(len as int) =~= trim_newline(all));
        Ok(v)
    }

    /// Digit values taken two by two, each pair made into one byte (the first of
    /// the pair gives the high four bits).
    pub fn to_byte_array(num_array: Vec<u8>) -> (r: Result<Vec<u8>, JesdError>)
        requires
            pairs_fit(num_array@),
        ensures
            r matches Ok(v) && v@ == spec_byte_array(num_array@),
    {
        let n = num_array.len();
        let half = n / 2;
        let mut v: Vec<u8> = Vec::new();
        let mut k: usize = 0;
        while k < half
            invariant
                n == num_array@.len(),
                half == n / 2,
                pairs_fit(num_array@),
                k <= half,
                v@ == spec_byte_array(num_array@).take(k as int),
            decreases half - k,
        {
            let hi = num_array[2 * k];
            let lo = num_array[2 * k + 1];
            proof {
                assert(pack(num_array@[2 * k as int], num_array@[2 * k as int + 1]) <= 255);
                lemma_shift_pack(hi, lo);
            }
            let b: u8 = (hi << 4u8) + lo;
            v.push(b);
            k = k + 1;
            assert(v@ =~= spec_byte_array(num_array@).take(k as int));
        }
        assert(spec_byte_array(num_array@).take(half as int) =~= spec_byte_array(num_array@));
        Ok(v)
    }

    /// Decodes a dump text whose letters are uppercase: 1024 hex digits, and
    /// optionally one trailing newline, make the 512 register bytes.
    pub fn decode(text: &str) -> (r: Result<Jesd84B51, JesdError>)
        requires
            decodable(text.spec_bytes()),
        ensures
            match r {
                Ok(j) => spec_decode(text.spec_bytes()) == Ok::<Seq<u8>, JesdError>(j.bytes@),
                Err(e) => spec_decode(text.spec_bytes()) == Err::<Seq<u8>, JesdError>(e),
            },
    {
        let nums = Self::get_num_array(String::from_str(text))?;
        let bytes = Self::to_byte_array(nums)?;
        assert(bytes@.len() == CSD_BYTES);
        let mut arr: [u8; 512] = [0u8; 512];
        let mut i: usize = 0;
        while i < CSD_BYTES
            invariant
                bytes@.len() == CSD_BYTES,
                i <= CSD_BYTES,
                forall|j: int| 0 <= j < i ==> arr@[j] == bytes@[j],
            decreases CSD_BYTES - i,
        {
            arr[i] = bytes[i];
            i = i + 1;
        }
        assert(arr@ =~= bytes@);
        Ok(Jesd84B51 { bytes: arr })
    }

    /// Decodes a register dump text: the text is turned to uppercase, then
    /// decoded as `decode` does. Where decoding the uppercase text would
    /// leave the range of a byte, the result is `InvalidDigit`. A dump of
    /// 1024 hex digits of either case gives the bytes it names.
    pub fn new(content: &str) -> (r: Result<Jesd84B51, JesdError>)
        ensures
            is_ascii_chars(content@) ==> spec_to_uppercase(content@) == content@.map_values(
                |c: char| ascii_upper(c),
            ),
            is_hex_dump(content@) ==> (r matches Ok(j) && j.bytes@ == hex_dump_bytes(content@)),
            ({
                let up = encode_utf8(spec_to_uppercase(content@));
                match r {
                    Ok(j) => decodable(up) && spec_decode(up) == Ok::<Seq<u8>, JesdError>(j.bytes@),
                    Err(e) => if decodable(up) {
                        spec_decode(up) == Err::<Seq<u8>, JesdError>(e)
                    } else {
                        e == JesdError::InvalidDigit
                    },
                }
            }),
    {
        let upper = str_to_uppercase(content);
        let text = upper.as_str();
        proof {
            if is_hex_dump(content@) {
                assert(is_ascii_chars(content@)) by {
                    let t = trim_newline_chars(content@);
                    assert forall|i: int| 0 <= i < content@.len() implies '\0' <= #[trigger] content@[i]
                        <= '\u{7f}' by {
                        if !(content@.len() > 0 && content@.last() == '\n' && i == content@.len() - 1) {
                            assert(t[i] == content@[i]);
                            assert(is_hex_char(t[i]));
                        }
                    }
                }
                lemma_upper_hex_dump(content@, upper@);
            }
        }
        if !is_decodable(text.as_bytes()) {
            return Err(JesdError::InvalidDigit);
        }
        Self::decode(text)
    }
}

} // verus!
