//! Texts: comparison, decimal numbers and message building.
use vstd::prelude::*;
use vstd::string::*;
use vstd::utf8::*;
use crate::order;

verus! {

/// The texts that a sequence of strings holds.
pub open spec fn texts(s: Seq<String>) -> Seq<Seq<char>> {
    order::views(s)
}

/// The pairs of texts that a sequence of string pairs holds.
pub open spec fn text_pairs(s: Seq<(String, String)>) -> Seq<(Seq<char>, Seq<char>)> {
    order::views(s)
}

/// The UTF-8 encoding is injective.
pub proof fn lemma_utf8_injective(a: Seq<char>, b: Seq<char>)
    requires
        encode_utf8(a) == encode_utf8(b),
    ensures
        a == b,
{
    encode_utf8_decode_utf8(a);
    encode_utf8_decode_utf8(b);
}

/// Whether two byte strings are equal.
pub fn bytes_equal(a: &[u8], b: &[u8]) -> (r: bool)
    ensures
        r == (a@ == b@),
{
    if a.len() != b.len() {
        return false;
    }
    let n: usize = a.len();
    for i in 0..n
        invariant
            n == a@.len(),
            n == b@.len(),
            forall|j: int| 0 <= j < i ==> a@[j] == b@[j],
    {
        if a[i] != b[i] {
            return false;
        }
    }
    assert(a@ =~= b@);
    true
}

/// Whether two texts are equal.
pub fn text_equal(a: &str, b: &str) -> (r: bool)
    ensures
        r == (a@ == b@),
{
    let r = bytes_equal(a.as_bytes(), b.as_bytes());
    proof {
        if r {
            lemma_utf8_injective(a@, b@);
        }
    }
    r
}

/// Whether a text is among the texts of a list.
pub fn contains_text(list: &Vec<String>, t: &str) -> (r: bool)
    ensures
        r == texts(list@).contains(t@),
{
    let n: usize = list.len();
    for i in 0..n
        invariant
            n == list@.len(),
            forall|j: int| 0 <= j < i ==> list@[j]@ != t@,
    {
        if text_equal(list[i].as_str(), t) {
            assert(texts(list@)[i as int] == t@);
            return true;
        }
    }
    assert forall|j: int| 0 <= j < texts(list@).len() implies texts(list@)[j] != t@ by {
        assert(texts(list@)[j] == list@[j]@);
    }
    false
}

/// A copy of a list of strings.
pub fn copy_texts(list: &Vec<String>) -> (r: Vec<String>)
    ensures
        texts(r@) == texts(list@),
{
    let r = list.clone();
    assert(r@ =~= list@);
    r
}

/// A copy of a byte string.
pub fn copy_bytes(bytes: &[u8]) -> (r: Vec<u8>)
    ensures
        r@ == bytes@,
{
    let mut r: Vec<u8> = Vec::new();
    r.extend_from_slice(bytes);
    assert(r@ =~= bytes@);
    r
}

/// The decimal digit of a number below ten.
pub open spec fn digit(n: nat) -> char {
    (n + 48) as char
}

/// The decimal notation of a number, without leading zeros.
pub open spec fn decimal(n: nat) -> Seq<char>
    decreases n,
{
    if n < 10 {
        seq![digit(n)]
    } else {
        decimal(n / 10).push(digit(n % 10))
    }
}

/// The digit of a number below ten, as a text.
fn digit_text(n: u64) -> (r: &'static str)
    requires
        n < 10,
    ensures
        r@ == seq![digit(n as nat)],
{
    proof {
        reveal_strlit("0");
        reveal_strlit("1");
        reveal_strlit("2");
        reveal_strlit("3");
        reveal_strlit("4");
        reveal_strlit("5");
        reveal_strlit("6");
        reveal_strlit("7");
        reveal_strlit("8");
        reveal_strlit("9");
    }
    let r = if n == 0 {
        "0"
    } else if n == 1 {
        "1"
    } else if n == 2 {
        "2"
    } else if n == 3 {
        "3"
    } else if n == 4 {
        "4"
    } else if n == 5 {
        "5"
    } else if n == 6 {
        "6"
    } else if n == 7 {
        "7"
    } else if n == 8 {
        "8"
    } else {
        "9"
    };
    assert(r@ =~= seq![digit(n as nat)]);
    r
}

/// Appends the decimal notation of a number.
pub fn append_decimal(out: &mut String, n: u64)
    ensures
        final(out)@ == old(out)@ + decimal(n as nat),
    decreases n,
{
    if n >= 10 {
        append_decimal(out, n / 10);
    }
    out.append(digit_text(n % 10));
    assert(out@ =~= old(out)@ + decimal(n as nat));
}

/// Decimal notation is positional: a number below ten is its digit, and behind the notation of a number
/// the digit `d` makes ten times the number plus `d`.
pub proof fn law_decimal_is_positional(n: nat, d: nat)
    requires
        d < 10,
    ensures
        decimal(d) == seq![(48 + d) as char],
        n > 0 ==> decimal(n * 10 + d) == decimal(n).push((48 + d) as char),
{
    if n > 0 {
        assert((n * 10 + d) / 10 == n);
        assert((n * 10 + d) % 10 == d);
    }
}

/// The texts of a list are those of its strings, one by one.
pub proof fn law_texts_are_element_wise(s: Seq<String>, pairs: Seq<(String, String)>)
    ensures
        texts(s).len() == s.len(),
        forall|i: int| 0 <= i < s.len() ==> #[trigger] texts(s)[i] == s[i]@,
        text_pairs(pairs).len() == pairs.len(),
        forall|i: int|
            0 <= i < pairs.len() ==> #[trigger] text_pairs(pairs)[i] == (
                pairs[i].0@,
                pairs[i].1@,
            ),
{
}

} // verus!
