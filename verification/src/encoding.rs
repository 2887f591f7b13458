//! Base64 (RFC 4648) with padding: bytes as text.
use base64::Engine;
use vstd::prelude::*;

verus! {

#[verifier::external_type_specification]
#[verifier::external_body]
pub struct ExDecodeError(base64::DecodeError);

/// The symbol that stands for six bits.
pub open spec fn symbol(v: int) -> char {
    if v < 26 {
        ('A' as int + v) as char
    } else if v < 52 {
        ('a' as int + v - 26) as char
    } else if v < 62 {
        ('0' as int + v - 52) as char
    } else if v == 62 {
        '+'
    } else {
        '/'
    }
}

/// The base64 text of `data`: four symbols for three bytes, and an incomplete group
/// at the end filled up with zero bits and then with padding.
pub open spec fn base64_text(data: Seq<u8>) -> Seq<char>
    decreases data.len(),
{
    let (a, b, c) = (data[0] as int, data[1] as int, data[2] as int);
    if data.len() == 0 {
        Seq::empty()
    } else if data.len() == 1 {
        seq![symbol(a / 4), symbol(a % 4 * 16), '=', '=']
    } else if data.len() == 2 {
        seq![symbol(a / 4), symbol(a % 4 * 16 + b / 16), symbol(b % 16 * 4), '=']
    } else {
        seq![
            symbol(a / 4),
            symbol(a % 4 * 16 + b / 16),
            symbol(b % 16 * 4 + c / 64),
            symbol(c % 64),
        ] + base64_text(data.skip(3))
    }
}

/// The length of the base64 text of `n` bytes.
pub open spec fn base64_len(n: int) -> int {
    4 * ((n + 2) / 3)
}

/// The bytes whose base64 text is `text`, if there are any.
pub open spec fn base64_read(text: Seq<char>) -> Option<Seq<u8>> {
    if exists|data: Seq<u8>| base64_text(data) == text {
        Some(choose|data: Seq<u8>| base64_text(data) == text)
    } else {
        None
    }
}

/// `base64::engine::general_purpose::STANDARD.encode`: the base64 text of `data`.
/// The outside function panics where the length of the text does not fit, which
/// `requires` leaves out.
#[verifier::external_body]
pub(crate) fn encode(data: &[u8]) -> (r: String)
    requires
        base64_len(data@.len() as int) <= isize::MAX,
    ensures
        r@ == base64_text(data@),
{
    base64::engine::general_purpose::STANDARD.encode(data)
}

/// `base64::engine::general_purpose::STANDARD.decode`: the bytes whose base64 text
/// is `text`, or an error where there are none. The engine accepts no other
/// spelling: padding has to be complete and the bits that it fills up zero. Which
/// error comes is not stated.
#[verifier::external_body]
pub(crate) fn decode(text: &str) -> (r: Result<Vec<u8>, base64::DecodeError>)
    ensures
        r matches Ok(data) ==> base64_text(data@) == text@,
        r is Err ==> forall|data: Seq<u8>| #[trigger] base64_text(data) != text@,
{
    base64::engine::general_purpose::STANDARD.decode(text)
}

proof fn lemma_symbol(v: int, w: int)
    requires
        0 <= v < 64,
        0 <= w < 64,
    ensures
        symbol(v) == symbol(w) ==> v == w,
        symbol(v) != '=',
{
}

/// The length of base64 text.
pub proof fn lemma_base64_len(data: Seq<u8>)
    ensures
        base64_text(data).len() == base64_len(data.len() as int),
    decreases data.len(),
{
    if data.len() >= 3 {
        lemma_base64_len(data.skip(3));
    }
}

/// Base64 text is made of letters, digits and four signs.
pub proof fn lemma_base64_symbols(data: Seq<u8>, i: int)
    requires
        0 <= i < base64_text(data).len(),
    ensures
        ({
            let c = base64_text(data)[i];
            'A' <= c <= 'Z' || 'a' <= c <= 'z' || '0' <= c <= '9' || c == '+' || c == '/' || c
                == '='
        }),
    decreases data.len(),
{
    if data.len() >= 3 && i >= 4 {
        lemma_base64_symbols(data.skip(3), i - 4);
    }
}

/// No two runs of bytes share their base64 text.
pub proof fn lemma_base64_distinct(x: Seq<u8>, y: Seq<u8>)
    requires
        base64_text(x) == base64_text(y),
    ensures
        x == y,
    decreases x.len(),
{
    let (s, t) = (base64_text(x), base64_text(y));
    lemma_base64_len(x);
    lemma_base64_len(y);
    if x.len() > 0 && y.len() > 0 {
        assert(s[0] == t[0] && s[1] == t[1] && s[2] == t[2] && s[3] == t[3]);
        let (a, b, c) = (x[0] as int, x[1] as int, x[2] as int);
        let (d, e, f) = (y[0] as int, y[1] as int, y[2] as int);
        lemma_symbol(a / 4, d / 4);
        if x.len() >= 3 && y.len() >= 3 {
            lemma_symbol(a % 4 * 16 + b / 16, d % 4 * 16 + e / 16);
            lemma_symbol(b % 16 * 4 + c / 64, e % 16 * 4 + f / 64);
            lemma_symbol(c % 64, f % 64);
            assert(base64_text(x.skip(3)) =~= s.skip(4));
            assert(base64_text(y.skip(3)) =~= t.skip(4));
            lemma_base64_distinct(x.skip(3), y.skip(3));
            assert(x =~= seq![x[0], x[1], x[2]] + x.skip(3));
            assert(y =~= seq![y[0], y[1], y[2]] + y.skip(3));
        } else if x.len() >= 3 {
            lemma_symbol(c % 64, 0);
        } else if y.len() >= 3 {
            lemma_symbol(f % 64, 0);
        } else if x.len() == 2 && y.len() == 2 {
            lemma_symbol(a % 4 * 16 + b / 16, d % 4 * 16 + e / 16);
            lemma_symbol(b % 16 * 4, e % 16 * 4);
        } else if x.len() == 2 {
            lemma_symbol(b % 16 * 4, 0);
        } else if y.len() == 2 {
            lemma_symbol(e % 16 * 4, 0);
        } else {
            lemma_symbol(a % 4 * 16, d % 4 * 16);
        }
    }
    assert(x =~= y);
}

/// Decoding gives back what was encoded.
pub proof fn lemma_base64_read_back(data: Seq<u8>)
    ensures
        base64_read(base64_text(data)) == Some(data),
{
    let text = base64_text(data);
    let found = choose|other: Seq<u8>| base64_text(other) == text;
    assert(base64_text(data) == text);
    lemma_base64_distinct(found, data);
}

} // verus!
