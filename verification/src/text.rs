//! Text: decimal and hexadecimal numbers, quoting, ordering and assembly.

use crate::bytes::{less_bytes, lex_less, same_bytes};
use vstd::prelude::*;
use vstd::string::*;
use vstd::utf8::{decode_utf8, encode_utf8, encode_utf8_decode_utf8, valid_utf8};

verus! {

/// The text of one hexadecimal digit.
pub open spec fn digit(d: nat) -> Seq<char> {
    if d == 0 {
        "0"@
    } else if d == 1 {
        "1"@
    } else if d == 2 {
        "2"@
    } else if d == 3 {
        "3"@
    } else if d == 4 {
        "4"@
    } else if d == 5 {
        "5"@
    } else if d == 6 {
        "6"@
    } else if d == 7 {
        "7"@
    } else if d == 8 {
        "8"@
    } else if d == 9 {
        "9"@
    } else if d == 10 {
        "a"@
    } else if d == 11 {
        "b"@
    } else if d == 12 {
        "c"@
    } else if d == 13 {
        "d"@
    } else if d == 14 {
        "e"@
    } else {
        "f"@
    }
}

/// `n` in decimal, without leading zeros.
pub open spec fn decimal(n: nat) -> Seq<char>
    decreases n,
{
    if n < 10 {
        digit(n)
    } else {
        decimal(n / 10) + digit(n % 10)
    }
}

/// The lowest `width` hexadecimal digits of `n`.
pub open spec fn hex(n: nat, width: nat) -> Seq<char>
    decreases width,
{
    if width == 0 {
        ""@
    } else {
        hex(n / 16, (width - 1) as nat) + digit(n % 16)
    }
}

/// The text of one hexadecimal digit.
pub fn digit_str(d: u64) -> (r: &'static str)
    requires
        d < 16,
    ensures
        r@ == digit(d as nat),
{
    match d {
        0 => "0",
        1 => "1",
        2 => "2",
        3 => "3",
        4 => "4",
        5 => "5",
        6 => "6",
        7 => "7",
        8 => "8",
        9 => "9",
        10 => "a",
        11 => "b",
        12 => "c",
        13 => "d",
        14 => "e",
        _ => "f",
    }
}

/// `n` in decimal.
pub fn decimal_str(n: u64) -> (r: String)
    ensures
        r@ == decimal(n as nat),
    decreases n,
{
    if n < 10 {
        digit_str(n).to_owned()
    } else {
        let mut s = decimal_str(n / 10);
        s.append(digit_str(n % 10));
        s
    }
}

/// A number of any machine size in decimal.
pub fn wide_str(n: u128) -> (r: String)
    ensures
        r@ == decimal(n as nat),
    decreases n,
{
    if n < 10 {
        digit_str(n as u64).to_owned()
    } else {
        let mut s = wide_str(n / 10);
        s.append(digit_str((n % 10) as u64));
        s
    }
}

/// The lowest `width` hexadecimal digits of `n`, in lower case.
pub fn hex_str(n: u64, width: u32) -> (r: String)
    ensures
        r@ == hex(n as nat, width as nat),
    decreases width,
{
    if width == 0 {
        "".to_owned()
    } else {
        let mut s = hex_str(n / 16, width - 1);
        s.append(digit_str(n % 16));
        s
    }
}

/// A copy of `s`.
pub fn own(s: &str) -> (r: String)
    ensures
        r@ == s@,
{
    s.to_owned()
}

/// Append `n` in decimal.
pub fn put_num(s: &mut String, n: u64)
    ensures
        final(s)@ == old(s)@ + decimal(n as nat),
{
    s.append(decimal_str(n).as_str());
}

/// `n` spaces.
pub open spec fn spaces(n: nat) -> Seq<char>
    decreases n,
{
    if n == 0 {
        ""@
    } else {
        spaces((n - 1) as nat) + " "@
    }
}

/// `s` filled up with spaces on the right to `width` characters.
pub open spec fn pad_right(s: Seq<char>, width: nat) -> Seq<char> {
    if s.len() < width {
        s + spaces((width - s.len()) as nat)
    } else {
        s
    }
}

/// `s` filled up with spaces on the left to `width` characters.
pub open spec fn pad_left(s: Seq<char>, width: nat) -> Seq<char> {
    if s.len() < width {
        spaces((width - s.len()) as nat) + s
    } else {
        s
    }
}

fn spaces_str(n: usize) -> (r: String)
    ensures
        r@ == spaces(n as nat),
    decreases n,
{
    if n == 0 {
        "".to_owned()
    } else {
        let mut s = spaces_str(n - 1);
        s.append(" ");
        s
    }
}

/// `s` filled up with spaces on the right to `width` characters.
pub fn pad_right_str(s: &str, width: usize) -> (r: String)
    ensures
        r@ == pad_right(s@, width as nat),
{
    let have: usize = s.unicode_len();
    let mut out = s.to_owned();
    if have < width {
        out.append(spaces_str(width - have).as_str());
    }
    out
}

/// `s` filled up with spaces on the left to `width` characters.
pub fn pad_left_str(s: &str, width: usize) -> (r: String)
    ensures
        r@ == pad_left(s@, width as nat),
{
    let have: usize = s.unicode_len();
    if have < width {
        let mut out = spaces_str(width - have);
        out.append(s);
        out
    } else {
        s.to_owned()
    }
}

/// The text of a list, its items separated by `sep`.
pub open spec fn join(items: Seq<Seq<char>>, sep: Seq<char>) -> Seq<char>
    decreases items.len(),
{
    if items.len() == 0 {
        ""@
    } else if items.len() == 1 {
        items[0]
    } else {
        join(items.drop_last(), sep) + sep + items.last()
    }
}

/// The views of a list of strings.
pub open spec fn texts(items: Seq<String>) -> Seq<Seq<char>> {
    items.map_values(|s: String| s@)
}

/// Join a list of strings.
pub fn join_str(items: &Vec<String>, sep: &str) -> (r: String)
    ensures
        r@ == join(texts(items@), sep@),
{
    let mut out = "".to_owned();
    let mut i: usize = 0;
    while i < items.len()
        invariant
            i <= items@.len(),
            out@ == join(texts(items@).take(i as int), sep@),
        decreases items@.len() - i,
    {
        if i > 0 {
            out.append(sep);
        }
        out.append(items[i].as_str());
        proof {
            let (all, next) = (texts(items@), texts(items@).take(i + 1));
            assert(next.drop_last() =~= all.take(i as int));
            assert(next.last() == items@[i as int]@);
            if i == 0 {
                reveal_strlit("");
                assert(out@ =~= items@[0]@);
            }
        }
        i += 1;
    }
    assert(texts(items@).take(i as int) =~= texts(items@));
    out
}

/// How a string is shown between double quotes, with the characters that need
/// it escaped.
pub uninterp spec fn quoted(s: Seq<char>) -> Seq<char>;

/// `s` in quotes: what `Debug` of `str` prints. The escaping rules are those
/// of the standard library and are named here, not restated.
#[verifier::external_body]
pub(crate) fn quoted_str(s: &str) -> (r: String)
    ensures
        r@ == quoted(s@),
{
    format!("{s:?}")
}

/// `core::str::from_utf8`: the text that `b` encodes, or nothing where `b` is
/// not valid UTF-8.
#[verifier::external_body]
pub(crate) fn utf8_text(b: &[u8]) -> (r: Option<&str>)
    ensures
        r is Some <==> valid_utf8(b@),
        r is Some ==> r->Some_0@ == decode_utf8(b@),
{
    core::str::from_utf8(b).ok()
}

/// Whether text `a` sorts strictly before text `b`: by their UTF-8 bytes.
pub open spec fn text_less(a: Seq<char>, b: Seq<char>) -> bool {
    lex_less(encode_utf8(a), encode_utf8(b))
}

/// Compare two texts.
pub fn less_str(a: &str, b: &str) -> (r: bool)
    ensures
        r == text_less(a@, b@),
{
    less_bytes(a.as_bytes(), b.as_bytes())
}

/// Different texts have different encodings.
pub proof fn law_encoding_injective(a: Seq<char>, b: Seq<char>)
    requires
        encode_utf8(a) == encode_utf8(b),
    ensures
        a == b,
{
    encode_utf8_decode_utf8(a);
    encode_utf8_decode_utf8(b);
}

/// Whether two texts are the same.
pub fn same_str(a: &str, b: &str) -> (r: bool)
    ensures
        r == (a@ == b@),
{
    let r = same_bytes(a.as_bytes(), b.as_bytes());
    proof {
        if r {
            law_encoding_injective(a@, b@);
        }
    }
    r
}

/// The view of an optional string.
pub open spec fn opt_text(s: Option<String>) -> Option<Seq<char>> {
    match s {
        Some(t) => Some(t@),
        None => None,
    }
}

/// Whether two optional strings are the same.
pub fn same_opt(a: &Option<String>, b: &Option<String>) -> (r: bool)
    ensures
        r == (opt_text(*a) == opt_text(*b)),
{
    match (a, b) {
        (Some(x), Some(y)) => same_str(x.as_str(), y.as_str()),
        (None, None) => true,
        _ => false,
    }
}

/// A copy of an optional string.
pub fn copy_opt(a: &Option<String>) -> (r: Option<String>)
    ensures
        opt_text(r) == opt_text(*a),
{
    match a {
        Some(x) => Some(x.clone()),
        None => None,
    }
}

/// How an optional string is shown.
pub open spec fn quoted_opt(s: Option<Seq<char>>) -> Seq<char> {
    match s {
        Some(t) => "Some("@ + quoted(t) + ")"@,
        None => "None"@,
    }
}

/// Show an optional string.
pub fn quoted_opt_str(s: &Option<String>) -> (r: String)
    ensures
        r@ == quoted_opt(opt_text(*s)),
{
    match s {
        Some(t) => {
            let mut out = "Some(".to_owned();
            out.append(quoted_str(t.as_str()).as_str());
            out.append(")");
            out
        },
        None => "None".to_owned(),
    }
}

} // verus!
