//! Text helpers: the byte order of strings, trimming and lower-casing, and
//! the decimal form of numbers.

use vstd::prelude::*;
use vstd::string::StringExecFns;
use vstd::utf8::encode_utf8;

verus! {

/// What `str::trim` leaves of a text: the text without its leading and
/// trailing white space, as Unicode defines white space.
pub uninterp spec fn trimmed(text: Seq<char>) -> Seq<char>;

/// What `str::to_lowercase` makes of a text: its lower-case form, as Unicode
/// defines it.
pub uninterp spec fn lowercased(text: Seq<char>) -> Seq<char>;

/// What `str::to_uppercase` makes of a text: its upper-case form, as Unicode
/// defines it.
pub uninterp spec fn uppercased(text: Seq<char>) -> Seq<char>;

/// `str::to_uppercase`.
#[verifier::external_body]
pub(crate) fn to_uppercase(text: &str) -> (upper: String)
    ensures
        upper@ == uppercased(text@),
{
    text.to_uppercase()
}

/// `str::trim`.
#[verifier::external_body]
pub(crate) fn trim(text: &str) -> (inner: &str)
    ensures
        inner@ == trimmed(text@),
{
    text.trim()
}

/// `str::to_lowercase`.
#[verifier::external_body]
pub(crate) fn to_lowercase(text: &str) -> (lower: String)
    ensures
        lower@ == lowercased(text@),
{
    text.to_lowercase()
}

/// `a` comes before `b` and `k` is where that shows: the two agree on their
/// first `k` bytes, and there `a` ends while `b` goes on, or `a` has the
/// smaller byte.
pub open spec fn bytes_before_at(a: Seq<u8>, b: Seq<u8>, k: int) -> bool {
    &&& 0 <= k <= a.len()
    &&& k < b.len()
    &&& forall|j: int| 0 <= j < k ==> a[j] == b[j]
    &&& (k < a.len() ==> a[k] < b[k])
}

/// `a` comes before `b` in the lexicographic order of bytes.
pub open spec fn bytes_before(a: Seq<u8>, b: Seq<u8>) -> bool {
    exists|k: int| bytes_before_at(a, b, k)
}

/// The text `a` comes before the text `b` in the order of strings: the
/// lexicographic order of their UTF-8 bytes.
pub open spec fn text_before(a: Seq<char>, b: Seq<char>) -> bool {
    bytes_before(encode_utf8(a), encode_utf8(b))
}

/// How two texts stand to each other in the order of strings.
#[derive(Debug, Clone, Copy, PartialEq, Eq, Structural)]
pub enum TextOrder {
    Before,
    Same,
    After,
}

/// The order is strict: no text comes before itself, and of two texts at most
/// one comes before the other.
pub proof fn lemma_bytes_before_asymmetric(a: Seq<u8>, b: Seq<u8>)
    requires
        bytes_before(a, b),
    ensures
        !bytes_before(b, a),
        a != b,
{
    let k = choose|k: int| bytes_before_at(a, b, k);
    assert forall|m: int| !bytes_before_at(b, a, m) by {
        if bytes_before_at(b, a, m) {
            if m < k {
                assert(a[m] == b[m]);
            } else if k < m {
                assert(b[k] == a[k]);
            }
        }
    }
}

/// The order is transitive.
pub proof fn lemma_bytes_before_transitive(a: Seq<u8>, b: Seq<u8>, c: Seq<u8>)
    requires
        bytes_before(a, b),
        bytes_before(b, c),
    ensures
        bytes_before(a, c),
{
    let k1 = choose|k: int| bytes_before_at(a, b, k);
    let k2 = choose|k: int| bytes_before_at(b, c, k);
    let k = if k1 <= k2 { k1 } else { k2 };
    assert forall|j: int| 0 <= j < k implies a[j] == c[j] by {
        assert(a[j] == b[j] && b[j] == c[j]);
    }
    if k1 < k2 {
        assert(b[k1] == c[k1]);
    } else if k2 < k1 {
        assert(a[k2] == b[k2]);
    }
    assert(bytes_before_at(a, c, k));
}

/// Two texts with the same bytes are the same text.
pub proof fn lemma_same_bytes_same_text(a: Seq<char>, b: Seq<char>)
    requires
        encode_utf8(a) == encode_utf8(b),
    ensures
        a == b,
{
    vstd::utf8::encode_utf8_decode_utf8(a);
    vstd::utf8::encode_utf8_decode_utf8(b);
}

/// Compares two texts in the order of strings.
pub fn compare_text(a: &str, b: &str) -> (order: TextOrder)
    ensures
        order == TextOrder::Before <==> text_before(a@, b@),
        order == TextOrder::Same <==> a@ == b@,
        order == TextOrder::After <==> text_before(b@, a@),
{
    let x = a.as_bytes();
    let y = b.as_bytes();
    let mut k: usize = 0;
    while k < x.len() && k < y.len() && x[k] == y[k]
        invariant
            k <= x@.len(),
            k <= y@.len(),
            forall|j: int| 0 <= j < k ==> x@[j] == y@[j],
        decreases x@.len() - k,
    {
        k += 1;
    }
    if k == x.len() && k == y.len() {
        proof {
            assert(x@ =~= y@);
            lemma_same_bytes_same_text(a@, b@);
            if bytes_before(x@, y@) {
                lemma_bytes_before_asymmetric(x@, y@);
            }
        }
        TextOrder::Same
    } else if k == x.len() || (k < y.len() && x[k] < y[k]) {
        proof {
            assert(bytes_before_at(x@, y@, k as int));
            lemma_bytes_before_asymmetric(x@, y@);
        }
        TextOrder::Before
    } else {
        proof {
            assert(bytes_before_at(y@, x@, k as int));
            lemma_bytes_before_asymmetric(y@, x@);
        }
        TextOrder::After
    }
}

/// The character of a decimal digit.
pub open spec fn digit_char(d: nat) -> char {
    if d == 0 {
        '0'
    } else if d == 1 {
        '1'
    } else if d == 2 {
        '2'
    } else if d == 3 {
        '3'
    } else if d == 4 {
        '4'
    } else if d == 5 {
        '5'
    } else if d == 6 {
        '6'
    } else if d == 7 {
        '7'
    } else if d == 8 {
        '8'
    } else {
        '9'
    }
}

/// A number in decimal digits, without leading zeros.
pub open spec fn decimal(n: nat) -> Seq<char>
    decreases n,
{
    if n < 10 {
        seq![digit_char(n)]
    } else {
        decimal(n / 10).push(digit_char(n % 10))
    }
}

/// The one-character text of a decimal digit.
fn digit_text(d: u64) -> (text: &'static str)
    requires
        d < 10,
    ensures
        text@ == seq![digit_char(d as nat)],
{
    proof {
        reveal_strlit("0");
        reveal_strlit("1");
        reveal_strlit("2");
        reveal_strlit("3");
        reveal_strlit("4");
        reveal_strlit("5");
        reveal_strlit("6");
        reveal_strlit("7");
        reveal_strlit("8");
        reveal_strlit("9");
    }
    let text = if d == 0 {
        "0"
    } else if d == 1 {
        "1"
    } else if d == 2 {
        "2"
    } else if d == 3 {
        "3"
    } else if d == 4 {
        "4"
    } else if d == 5 {
        "5"
    } else if d == 6 {
        "6"
    } else if d == 7 {
        "7"
    } else if d == 8 {
        "8"
    } else {
        "9"
    };
    assert(text@ =~= seq![digit_char(d as nat)]);
    text
}

/// A number written in decimal digits.
pub fn decimal_text(n: u64) -> (text: String)
    ensures
        text@ == decimal(n as nat),
{
    let mut text = String::from_str(digit_text(n % 10));
    let mut rest: u64 = n / 10;
    while rest > 0
        invariant
            decimal(n as nat) == (if rest > 0 {
                decimal(rest as nat)
            } else {
                Seq::<char>::empty()
            }) + text@,
        decreases rest,
    {
        let ghost tail = text@;
        text = String::from_str(digit_text(rest % 10)).concat(text.as_str());
        proof {
            let digit = seq![digit_char((rest % 10) as nat)];
            assert(text@ == digit + tail);
            if rest >= 10 {
                assert(decimal((rest / 10) as nat).push(digit_char((rest % 10) as nat)) + tail
                    =~= decimal((rest / 10) as nat) + (digit + tail));
            } else {
                assert(Seq::<char>::empty() + (digit + tail) =~= digit + tail);
            }
        }
        rest = rest / 10;
    }
    proof {
        assert(Seq::<char>::empty() + text@ =~= text@);
    }
    text
}

/// `n / unit` rounded to the nearest whole number; a tie goes to the even
/// neighbour.
pub open spec fn rounded_half_even(n: nat, unit: nat) -> nat {
    let q = n / unit;
    let r = n % unit;
    if 2 * r < unit || (2 * r == unit && q % 2 == 0) {
        q
    } else {
        q + 1
    }
}

/// The size of a number without its sign.
pub open spec fn magnitude(value: int) -> nat {
    if value < 0 {
        (-value) as nat
    } else {
        value as nat
    }
}

/// The sign that a rounded number is written with: a minus where the value
/// is negative and does not round to zero.
pub open spec fn sign_text(value: int, rounded: nat) -> Seq<char> {
    if value < 0 && rounded > 0 {
        seq!['-']
    } else {
        Seq::empty()
    }
}

/// A number of thousandths written with one decimal place, rounded half to
/// even: 7125 reads "7.1", -250 reads "-0.2".
pub open spec fn one_decimal(milli: int) -> Seq<char> {
    let tenths = rounded_half_even(magnitude(milli), 100);
    sign_text(milli, tenths) + decimal(tenths / 10) + seq!['.'] + seq![digit_char(tenths % 10)]
}

/// A number of thousandths written with two decimal places, rounded half to
/// even: 7125 reads "7.12", 7135 reads "7.14".
pub open spec fn two_decimals(milli: int) -> Seq<char> {
    let hundredths = rounded_half_even(magnitude(milli), 10);
    sign_text(milli, hundredths) + decimal(hundredths / 100) + seq!['.'] + seq![
        digit_char((hundredths % 100) / 10),
    ] + seq![digit_char(hundredths % 10)]
}

/// The size of `value` without its sign.
fn magnitude_of(value: i64) -> (size: u64)
    ensures
        size == magnitude(value as int),
{
    if value < 0 {
        let above: i64 = -(value + 1);
        above as u64 + 1
    } else {
        value as u64
    }
}

/// `n / unit` rounded to the nearest whole number, ties to even.
fn round_half_even(n: u64, unit: u64) -> (rounded: u64)
    requires
        unit == 10 || unit == 100,
    ensures
        rounded == rounded_half_even(n as nat, unit as nat),
{
    let q = n / unit;
    let r = n % unit;
    if 2 * r < unit || (2 * r == unit && q % 2 == 0) {
        q
    } else {
        q + 1
    }
}

/// The sign of a rounded number.
fn sign_of(value: i64, rounded: u64) -> (text: &'static str)
    ensures
        text@ == sign_text(value as int, rounded as nat),
{
    proof {
        reveal_strlit("-");
        reveal_strlit("");
    }
    let text = if value < 0 && rounded > 0 {
        "-"
    } else {
        ""
    };
    assert(text@ =~= sign_text(value as int, rounded as nat));
    text
}

/// A number of thousandths written with one decimal place.
pub fn one_decimal_text(milli: i64) -> (text: String)
    ensures
        text@ == one_decimal(milli as int),
{
    let tenths = round_half_even(magnitude_of(milli), 100);
    proof {
        reveal_strlit(".");
        assert("."@ =~= seq!['.']);
    }
    let whole = decimal_text(tenths / 10);
    String::from_str(sign_of(milli, tenths)).concat(whole.as_str()).concat(".").concat(
        digit_text(tenths % 10),
    )
}

/// A number of thousandths written with two decimal places.
pub fn two_decimals_text(milli: i64) -> (text: String)
    ensures
        text@ == two_decimals(milli as int),
{
    let hundredths = round_half_even(magnitude_of(milli), 10);
    proof {
        reveal_strlit(".");
        assert("."@ =~= seq!['.']);
    }
    let whole = decimal_text(hundredths / 100);
    String::from_str(sign_of(milli, hundredths)).concat(whole.as_str()).concat(".").concat(
        digit_text((hundredths % 100) / 10),
    ).concat(digit_text(hundredths % 10))
}

/// True when the two texts are the same.
pub fn same_text(a: &str, b: &str) -> (same: bool)
    ensures
        same == (a@ == b@),
{
    compare_text(a, b) == TextOrder::Same
}

/// The texts `a` and `b`, one after the other.
pub fn join(a: &str, b: &str) -> (text: String)
    ensures
        text@ == a@ + b@,
{
    String::from_str(a).concat(b)
}

} // verus!
