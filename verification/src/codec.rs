//! The byte discipline that all keys and fingerprints share: numbers in big-endian order, texts and
//! byte strings behind their length, lists behind their count, and a cursor that fails closed.
use vstd::prelude::*;
use vstd::utf8::*;
use crate::error;
use crate::error::{invalid, Error, ErrorView};
use crate::order;
use crate::text::copy_bytes;

verus! {

// ---------------------------------------------------------------------------------------------
// Numbers in big-endian order
// ---------------------------------------------------------------------------------------------

/// The lowest `width` base-256 digits of a number, the most significant one first.
pub open spec fn be_bytes(n: nat, width: nat) -> Seq<u8>
    decreases width,
{
    if width == 0 {
        Seq::empty()
    } else {
        be_bytes(n / 256, (width - 1) as nat).push((n % 256) as u8)
    }
}

/// The number whose base-256 digits are the given bytes, the most significant one first.
pub open spec fn be_value(s: Seq<u8>) -> nat
    decreases s.len(),
{
    if s.len() == 0 {
        0
    } else {
        be_value(s.drop_last()) * 256 + s.last() as nat
    }
}

/// 256 to the power of `width`.
pub open spec fn pow256(width: nat) -> nat
    decreases width,
{
    if width == 0 {
        1
    } else {
        256 * pow256((width - 1) as nat)
    }
}

pub proof fn lemma_be_bytes_len(n: nat, width: nat)
    ensures
        be_bytes(n, width).len() == width,
    decreases width,
{
    if width > 0 {
        lemma_be_bytes_len(n / 256, (width - 1) as nat);
    }
}

proof fn lemma_be_value_bound(s: Seq<u8>)
    ensures
        be_value(s) < pow256(s.len()),
    decreases s.len(),
{
    if s.len() > 0 {
        lemma_be_value_bound(s.drop_last());
    }
}

proof fn lemma_pow256_values()
    ensures
        pow256(4) == 0x1_0000_0000,
        pow256(8) == 0x1_0000_0000_0000_0000,
{
    reveal_with_fuel(pow256, 9);
}

/// Reading back a number that was written with enough bytes gives the number.
pub proof fn law_number_round_trips(n: nat, width: nat)
    requires
        n < pow256(width),
    ensures
        be_value(be_bytes(n, width)) == n,
    decreases width,
{
    if width > 0 {
        law_number_round_trips(n / 256, (width - 1) as nat);
        let s = be_bytes(n / 256, (width - 1) as nat);
        assert(be_bytes(n, width).drop_last() =~= s);
    }
}

/// A number has one notation of each width: writing the number that some bytes stand for gives the
/// bytes.
pub proof fn law_number_has_one_notation(s: Seq<u8>)
    ensures
        be_bytes(be_value(s), s.len()) == s,
    decreases s.len(),
{
    if s.len() > 0 {
        let head = s.drop_last();
        law_number_has_one_notation(head);
        assert(be_value(s) / 256 == be_value(head));
        assert(be_value(s) % 256 == s.last());
        assert(head.push(s.last()) =~= s);
    } else {
        assert(be_bytes(be_value(s), 0) =~= s);
    }
}

/// Appends a number as eight bytes.
pub fn put_u64(b: &mut Vec<u8>, n: u64)
    ensures
        final(b)@ == old(b)@ + be_bytes(n as nat, 8),
{
    let n1: u64 = n / 256;
    let n2: u64 = n1 / 256;
    let n3: u64 = n2 / 256;
    let n4: u64 = n3 / 256;
    b.push((n4 / 256 / 256 / 256) as u8);
    b.push((n4 / 256 / 256 % 256) as u8);
    b.push((n4 / 256 % 256) as u8);
    b.push((n4 % 256) as u8);
    b.push((n3 % 256) as u8);
    b.push((n2 % 256) as u8);
    b.push((n1 % 256) as u8);
    b.push((n % 256) as u8);
    proof {
        reveal_with_fuel(be_bytes, 9);
        assert(n4 / 256 / 256 / 256 < 256);
    }
    assert(b@ =~= old(b)@ + be_bytes(n as nat, 8));
}

/// Appends a number as four bytes.
pub fn put_u32(b: &mut Vec<u8>, n: u32)
    ensures
        final(b)@ == old(b)@ + be_bytes(n as nat, 4),
{
    b.push((n / 256 / 256 / 256) as u8);
    b.push((n / 256 / 256 % 256) as u8);
    b.push((n / 256 % 256) as u8);
    b.push((n % 256) as u8);
    proof {
        reveal_with_fuel(be_bytes, 5);
        assert(n / 256 / 256 / 256 < 256);
    }
    assert(b@ =~= old(b)@ + be_bytes(n as nat, 4));
}

/// The number that at most eight bytes stand for.
fn value_of(raw: &[u8]) -> (n: u64)
    requires
        raw@.len() <= 8,
    ensures
        n == be_value(raw@),
{
    let mut n: u64 = 0;
    let len: usize = raw.len();
    for i in 0..len
        invariant
            len == raw@.len(),
            len <= 8,
            n == be_value(raw@.take(i as int)),
    {
        proof {
            let head = raw@.take(i + 1);
            assert(head.drop_last() =~= raw@.take(i as int));
            assert(head.last() == raw@[i as int]);
            lemma_be_value_bound(head);
            lemma_pow256_monotone(head.len(), 8);
            lemma_pow256_values();
        }
        n = n * 256 + raw[i] as u64;
    }
    assert(raw@.take(raw@.len() as int) =~= raw@);
    n
}

proof fn lemma_pow256_monotone(a: nat, b: nat)
    requires
        a <= b,
    ensures
        pow256(a) <= pow256(b),
    decreases b,
{
    if a < b {
        lemma_pow256_monotone(a, (b - 1) as nat);
    }
}

// ---------------------------------------------------------------------------------------------
// Frames
// ---------------------------------------------------------------------------------------------

/// A byte string behind its length, so that no field can bleed into the next one.
pub open spec fn bytes_frame(s: Seq<u8>) -> Seq<u8> {
    be_bytes(s.len(), 8) + s
}

/// A text behind the length of its UTF-8 encoding.
pub open spec fn text_frame(t: Seq<char>) -> Seq<u8> {
    bytes_frame(encode_utf8(t))
}

/// Appends a text behind its length.
pub fn enc_str(b: &mut Vec<u8>, s: &str)
    ensures
        final(b)@ == old(b)@ + text_frame(s@),
{
    enc_bytes(b, s.as_bytes());
}

/// Appends a byte string behind its length.
pub fn enc_bytes(b: &mut Vec<u8>, bytes: &[u8])
    ensures
        final(b)@ == old(b)@ + bytes_frame(bytes@),
{
    put_u64(b, bytes.len() as u64);
    b.extend_from_slice(bytes);
    assert(b@ =~= old(b)@ + bytes_frame(bytes@));
}

// ---------------------------------------------------------------------------------------------
// Reading: what stands at a position
// ---------------------------------------------------------------------------------------------

/// The failure of a decoder: an `Invalid` that names what was decoded.
pub open spec fn bad(what: Seq<char>, detail: Seq<char>) -> ErrorView {
    ErrorView::Invalid { what, detail }
}

/// The next `n` bytes from position `i`, and the position after the attempt.
pub open spec fn take_at(b: Seq<u8>, i: int, n: int, what: Seq<char>) -> (
    Result<Seq<u8>, ErrorView>,
    int,
) {
    if i + n > usize::MAX {
        (Err(bad(what, "length overflow"@)), i)
    } else if i + n > b.len() {
        (Err(bad(what, "truncated"@)), i)
    } else {
        (Ok(b.subrange(i, i + n)), i + n)
    }
}

/// The eight-byte number at position `i`, and the position after the attempt.
pub open spec fn u64_at(b: Seq<u8>, i: int, what: Seq<char>) -> (Result<u64, ErrorView>, int) {
    match take_at(b, i, 8, what) {
        (Ok(s), j) => (Ok(be_value(s) as u64), j),
        (Err(e), j) => (Err(e), j),
    }
}

/// The four-byte number at position `i`, and the position after the attempt.
pub open spec fn u32_at(b: Seq<u8>, i: int, what: Seq<char>) -> (Result<u32, ErrorView>, int) {
    match take_at(b, i, 4, what) {
        (Ok(s), j) => (Ok(be_value(s) as u32), j),
        (Err(e), j) => (Err(e), j),
    }
}

/// The byte string behind its length at position `i`, and the position after the attempt.
pub open spec fn bytes_at(b: Seq<u8>, i: int, what: Seq<char>) -> (
    Result<Seq<u8>, ErrorView>,
    int,
) {
    match u64_at(b, i, what) {
        (Ok(n), j) => take_at(b, j, (n as usize) as int, what),
        (Err(e), j) => (Err(e), j),
    }
}

/// The text behind its length at position `i`, and the position after the attempt.
pub open spec fn text_at(b: Seq<u8>, i: int, what: Seq<char>) -> (
    Result<Seq<char>, ErrorView>,
    int,
) {
    match bytes_at(b, i, what) {
        (Ok(s), j) => if valid_utf8(s) {
            (Ok(decode_utf8(s)), j)
        } else {
            (Err(bad(what, "non-utf8"@)), j)
        },
        (Err(e), j) => (Err(e), j),
    }
}

/// Whether all bytes up to position `i` are all there is.
pub open spec fn end_at(b: Seq<u8>, i: int, what: Seq<char>) -> Result<(), ErrorView> {
    if i != b.len() {
        Err(bad(what, "trailing bytes"@))
    } else {
        Ok(())
    }
}

/// `std`'s `String::from_utf8`: a byte string that is valid UTF-8 becomes the text that it encodes;
/// any other one is refused.
#[verifier::external_body]
fn string_from_utf8(bytes: Vec<u8>) -> (r: Option<String>)
    ensures
        r is Some <==> valid_utf8(bytes@),
        r matches Some(s) ==> s@ == decode_utf8(bytes@),
{
    String::from_utf8(bytes).ok()
}

/// A byte cursor that fails closed: malformed input is a typed `Invalid`, never a panic.
pub struct Cur<'a> {
    b: &'a [u8],
    i: usize,
    what: &'static str,
}

/// What a [`Cur`] stands for: the bytes, the position of the next one and what is decoded.
pub struct CurView {
    pub bytes: Seq<u8>,
    pub pos: int,
    pub what: Seq<char>,
}

impl<'a> View for Cur<'a> {
    type V = CurView;

    closed spec fn view(&self) -> CurView {
        CurView { bytes: self.b@, pos: self.i as int, what: self.what@ }
    }
}

impl CurView {
    /// The position lies within the bytes, and positions are machine numbers.
    pub open spec fn wf(self) -> bool {
        0 <= self.pos <= self.bytes.len() <= usize::MAX
    }

    /// The cursor at another position.
    pub open spec fn moved(self, pos: int) -> CurView {
        CurView { bytes: self.bytes, pos, what: self.what }
    }
}

impl<'a> Cur<'a> {
    /// A cursor at the start of the bytes.
    pub fn new(b: &'a [u8], what: &'static str) -> (c: Cur<'a>)
        ensures
            c@ == (CurView { bytes: b@, pos: 0, what: what@ }),
            c@.wf(),
    {
        let n: usize = b.len();
        Cur { b, i: 0, what }
    }

    /// The failure of this decoder with the given detail.
    pub fn err(&self, detail: &str) -> (e: Error)
        ensures
            e@ == bad(self@.what, detail@),
    {
        invalid(self.what, detail)
    }

    /// The next `n` bytes.
    pub fn take(&mut self, n: usize) -> (r: Result<&'a [u8], Error>)
        requires
            old(self)@.wf(),
        ensures
            ({
                let (res, pos) = take_at(old(self)@.bytes, old(self)@.pos, n as int, old(self)@.what);
                &&& match r {
                    Ok(s) => res == Ok::<Seq<u8>, ErrorView>(s@),
                    Err(e) => res == Err::<Seq<u8>, ErrorView>(e@),
                }
                &&& final(self)@ == old(self)@.moved(pos)
                &&& final(self)@.wf()
            }),
    {
        match self.i.checked_add(n) {
            None => Err(self.err("length overflow")),
            Some(end) => {
                if end > self.b.len() {
                    return Err(self.err("truncated"));
                }
                let s = vstd::slice::slice_subrange(self.b, self.i, end);
                self.i = end;
                Ok(s)
            },
        }
    }

    /// The next number of eight bytes.
    pub fn u64(&mut self) -> (r: Result<u64, Error>)
        requires
            old(self)@.wf(),
        ensures
            ({
                let (res, pos) = u64_at(old(self)@.bytes, old(self)@.pos, old(self)@.what);
                &&& match r {
                    Ok(n) => res == Ok::<u64, ErrorView>(n),
                    Err(e) => res == Err::<u64, ErrorView>(e@),
                }
                &&& final(self)@ == old(self)@.moved(pos)
                &&& final(self)@.wf()
            }),
    {
        match self.take(8) {
            Ok(raw) => Ok(value_of(raw)),
            Err(e) => Err(e),
        }
    }

    /// The next number of four bytes.
    pub fn u32(&mut self) -> (r: Result<u32, Error>)
        requires
            old(self)@.wf(),
        ensures
            ({
                let (res, pos) = u32_at(old(self)@.bytes, old(self)@.pos, old(self)@.what);
                &&& match r {
                    Ok(n) => res == Ok::<u32, ErrorView>(n),
                    Err(e) => res == Err::<u32, ErrorView>(e@),
                }
                &&& final(self)@ == old(self)@.moved(pos)
                &&& final(self)@.wf()
            }),
    {
        match self.take(4) {
            Ok(raw) => {
                proof {
                    lemma_be_value_bound(raw@);
                    lemma_pow256_values();
                }
                Ok(value_of(raw) as u32)
            },
            Err(e) => Err(e),
        }
    }

    /// The next byte.
    pub fn byte(&mut self) -> (r: Result<u8, Error>)
        requires
            old(self)@.wf(),
        ensures
            ({
                let (res, pos) = take_at(old(self)@.bytes, old(self)@.pos, 1, old(self)@.what);
                &&& match r {
                    Ok(t) => res == Ok::<Seq<u8>, ErrorView>(seq![t]),
                    Err(e) => res == Err::<Seq<u8>, ErrorView>(e@),
                }
                &&& final(self)@ == old(self)@.moved(pos)
                &&& final(self)@.wf()
            }),
    {
        match self.take(1) {
            Ok(raw) => {
                assert(raw@ =~= seq![raw@[0]]);
                Ok(raw[0])
            },
            Err(e) => Err(e),
        }
    }

    /// The next byte string behind its length.
    pub fn bytes(&mut self) -> (r: Result<Vec<u8>, Error>)
        requires
            old(self)@.wf(),
        ensures
            ({
                let (res, pos) = bytes_at(old(self)@.bytes, old(self)@.pos, old(self)@.what);
                &&& error::result_view(r) == res
                &&& final(self)@ == old(self)@.moved(pos)
                &&& final(self)@.wf()
            }),
    {
        match self.u64() {
            Ok(n) => match self.take(n as usize) {
                Ok(s) => Ok(copy_bytes(s)),
                Err(e) => Err(e),
            },
            Err(e) => Err(e),
        }
    }

    /// The next text behind its length.
    pub fn str(&mut self) -> (r: Result<String, Error>)
        requires
            old(self)@.wf(),
        ensures
            ({
                let (res, pos) = text_at(old(self)@.bytes, old(self)@.pos, old(self)@.what);
                &&& error::result_view(r) == res
                &&& final(self)@ == old(self)@.moved(pos)
                &&& final(self)@.wf()
            }),
    {
        match self.bytes() {
            Ok(s) => match string_from_utf8(s) {
                Some(t) => Ok(t),
                None => Err(self.err("non-utf8")),
            },
            Err(e) => Err(e),
        }
    }

    /// Success if and only if no byte is left.
    pub fn finish(&self) -> (r: Result<(), Error>)
        requires
            self@.wf(),
        ensures
            error::result_view(r) == end_at(self@.bytes, self@.pos, self@.what),
    {
        if self.i != self.b.len() {
            return Err(self.err("trailing bytes"));
        }
        Ok(())
    }
}

// ---------------------------------------------------------------------------------------------
// Reading back what was written
// ---------------------------------------------------------------------------------------------

/// The bytes `e` stand at position `i`.
pub open spec fn is_at(b: Seq<u8>, i: int, e: Seq<u8>) -> bool {
    &&& 0 <= i
    &&& i + e.len() <= b.len()
    &&& b.subrange(i, i + e.len()) == e
}

/// `b` is the beginning of `c`.
pub open spec fn is_prefix(b: Seq<u8>, c: Seq<u8>) -> bool {
    b.len() <= c.len() && c.take(b.len() as int) == b
}

/// A failure is an `Invalid` that names what was decoded.
pub open spec fn is_bad(e: ErrorView, what: Seq<char>) -> bool {
    e matches ErrorView::Invalid { what: w, .. } && w == what
}

/// What a reader found in a beginning of some bytes it finds in all of them, every failure is an
/// `Invalid`, and where all of the bytes would do, it is that the beginning is cut off.
pub open spec fn is_stable<T>(
    in_prefix: (Result<T, ErrorView>, int),
    in_whole: (Result<T, ErrorView>, int),
    i: int,
    len: int,
    what: Seq<char>,
) -> bool {
    &&& i <= in_prefix.1 <= len
    &&& match in_prefix.0 {
        Ok(_) => in_whole == in_prefix,
        Err(e) => is_bad(e, what) && (in_whole.0 is Ok ==> e == bad(what, "truncated"@)),
    }
}

pub proof fn lemma_at_split(b: Seq<u8>, i: int, x: Seq<u8>, y: Seq<u8>)
    requires
        is_at(b, i, x + y),
    ensures
        is_at(b, i, x),
        is_at(b, i + x.len(), y),
{
    let e = x + y;
    assert(b.subrange(i, i + x.len()) =~= x) by {
        assert forall|k: int| 0 <= k < x.len() implies b[i + k] == #[trigger] x[k] by {
            assert(b.subrange(i, i + e.len())[k] == e[k]);
        }
    }
    assert(b.subrange(i + x.len(), i + x.len() + y.len()) =~= y) by {
        assert forall|k: int| 0 <= k < y.len() implies b[i + x.len() + k] == #[trigger] y[k] by {
            assert(b.subrange(i, i + e.len())[x.len() + k] == e[x.len() + k]);
        }
    }
}

pub proof fn lemma_at_join(b: Seq<u8>, i: int, x: Seq<u8>, y: Seq<u8>)
    requires
        is_at(b, i, x),
        is_at(b, i + x.len(), y),
    ensures
        is_at(b, i, x + y),
{
    assert(b.subrange(i, i + (x + y).len()) =~= b.subrange(i, i + x.len()) + b.subrange(
        i + x.len(),
        i + x.len() + y.len(),
    ));
}

pub proof fn lemma_whole_is_at(b: Seq<u8>)
    ensures
        is_at(b, 0, b),
{
    assert(b.subrange(0, b.len() as int) =~= b);
}

pub proof fn lemma_take_stable(b: Seq<u8>, c: Seq<u8>, i: int, n: int, what: Seq<char>)
    requires
        0 <= i <= b.len(),
        0 <= n,
        is_prefix(b, c),
    ensures
        is_stable(take_at(b, i, n, what), take_at(c, i, n, what), i, b.len() as int, what),
{
    if i + n <= b.len() && i + n <= usize::MAX {
        assert(b.subrange(i, i + n) =~= c.subrange(i, i + n)) by {
            assert forall|k: int| i <= k < i + n implies b[k] == #[trigger] c[k] by {
                assert(c.take(b.len() as int)[k] == c[k]);
            }
        }
    }
}

pub proof fn lemma_u64_round_trips(b: Seq<u8>, i: int, n: u64, what: Seq<char>)
    requires
        is_at(b, i, be_bytes(n as nat, 8)),
        b.len() <= usize::MAX,
    ensures
        u64_at(b, i, what) == (Ok::<u64, ErrorView>(n), i + 8),
{
    lemma_be_bytes_len(n as nat, 8);
    lemma_pow256_values();
    law_number_round_trips(n as nat, 8);
}

pub proof fn lemma_u32_round_trips(b: Seq<u8>, i: int, n: u32, what: Seq<char>)
    requires
        is_at(b, i, be_bytes(n as nat, 4)),
        b.len() <= usize::MAX,
    ensures
        u32_at(b, i, what) == (Ok::<u32, ErrorView>(n), i + 4),
{
    lemma_be_bytes_len(n as nat, 4);
    lemma_pow256_values();
    law_number_round_trips(n as nat, 4);
}

pub proof fn lemma_bytes_round_trip(b: Seq<u8>, i: int, s: Seq<u8>, what: Seq<char>)
    requires
        is_at(b, i, bytes_frame(s)),
        b.len() <= usize::MAX,
    ensures
        bytes_at(b, i, what) == (Ok::<Seq<u8>, ErrorView>(s), i + bytes_frame(s).len()),
{
    let n = s.len() as u64;
    lemma_be_bytes_len(s.len(), 8);
    lemma_at_split(b, i, be_bytes(s.len(), 8), s);
    assert(s.len() <= usize::MAX);
    lemma_u64_round_trips(b, i, n, what);
}

/// Where lengths of eight bytes are machine numbers, a byte string that is read stands there as its
/// frame.
pub proof fn lemma_bytes_are_framed(b: Seq<u8>, i: int, what: Seq<char>)
    requires
        0 <= i,
        usize::MAX == u64::MAX,
    ensures
        bytes_at(b, i, what) matches (Ok(s), j) ==> {
            &&& is_at(b, i, bytes_frame(s))
            &&& j == i + bytes_frame(s).len()
        },
{
    if let (Ok(s), j) = bytes_at(b, i, what) {
        let raw = b.subrange(i, i + 8);
        lemma_be_value_bound(raw);
        lemma_pow256_values();
        law_number_has_one_notation(raw);
        assert(s.len() == be_value(raw));
        lemma_at_join(b, i, raw, s);
    }
}

/// Where lengths of eight bytes are machine numbers, a text that is read stands there as its frame.
pub proof fn lemma_text_is_framed(b: Seq<u8>, i: int, what: Seq<char>)
    requires
        0 <= i,
        usize::MAX == u64::MAX,
    ensures
        text_at(b, i, what) matches (Ok(t), j) ==> {
            &&& is_at(b, i, text_frame(t))
            &&& j == i + text_frame(t).len()
        },
{
    lemma_bytes_are_framed(b, i, what);
    if let (Ok(s), _) = bytes_at(b, i, what) {
        if valid_utf8(s) {
            decode_utf8_encode_utf8(s);
        }
    }
}

/// A number of four bytes that is read stands there as its notation.
pub proof fn lemma_u32_is_noted(b: Seq<u8>, i: int, what: Seq<char>)
    requires
        0 <= i,
    ensures
        u32_at(b, i, what) matches (Ok(n), j) ==> {
            &&& is_at(b, i, be_bytes(n as nat, 4))
            &&& j == i + 4
        },
{
    if let (Ok(n), j) = u32_at(b, i, what) {
        let raw = b.subrange(i, i + 4);
        lemma_be_value_bound(raw);
        lemma_pow256_values();
        law_number_has_one_notation(raw);
    }
}

pub proof fn lemma_bytes_stable(b: Seq<u8>, c: Seq<u8>, i: int, what: Seq<char>)
    requires
        0 <= i <= b.len(),
        is_prefix(b, c),
    ensures
        is_stable(bytes_at(b, i, what), bytes_at(c, i, what), i, b.len() as int, what),
{
    lemma_take_stable(b, c, i, 8, what);
    match u64_at(b, i, what) {
        (Ok(n), j) => {
            lemma_take_stable(b, c, j, (n as usize) as int, what);
        },
        _ => {},
    }
}

pub proof fn lemma_text_round_trips(b: Seq<u8>, i: int, t: Seq<char>, what: Seq<char>)
    requires
        is_at(b, i, text_frame(t)),
        b.len() <= usize::MAX,
    ensures
        text_at(b, i, what) == (Ok::<Seq<char>, ErrorView>(t), i + text_frame(t).len()),
{
    lemma_bytes_round_trip(b, i, encode_utf8(t), what);
    encode_utf8_valid_utf8(t);
    encode_utf8_decode_utf8(t);
}

pub proof fn lemma_text_stable(b: Seq<u8>, c: Seq<u8>, i: int, what: Seq<char>)
    requires
        0 <= i <= b.len(),
        is_prefix(b, c),
    ensures
        is_stable(text_at(b, i, what), text_at(c, i, what), i, b.len() as int, what),
{
    lemma_bytes_stable(b, c, i, what);
}

// ---------------------------------------------------------------------------------------------
// Lists of framed items
// ---------------------------------------------------------------------------------------------

/// A value that is written as frames, one behind the other, and read back from them.
pub trait Framed: View + Sized {
    /// The bytes that the value is written as.
    spec fn frame(v: Self::V) -> Seq<u8>;

    /// The value that stands at position `i`, and the position after the attempt.
    spec fn at(b: Seq<u8>, i: int, what: Seq<char>) -> (Result<Self::V, ErrorView>, int);

    /// Appends the value.
    fn put(&self, b: &mut Vec<u8>)
        ensures
            final(b)@ == old(b)@ + Self::frame(self@),
    ;

    /// The next value.
    fn take_from(c: &mut Cur<'_>) -> (r: Result<Self, Error>)
        requires
            old(c)@.wf(),
        ensures
            ({
                let (res, pos) = Self::at(old(c)@.bytes, old(c)@.pos, old(c)@.what);
                &&& error::result_view(r) == res
                &&& final(c)@ == old(c)@.moved(pos)
                &&& final(c)@.wf()
            }),
    ;

    /// A value that was written at a position is what is read there.
    proof fn law_frame_round_trips(v: Self::V, b: Seq<u8>, i: int, what: Seq<char>)
        requires
            is_at(b, i, Self::frame(v)),
            b.len() <= usize::MAX,
        ensures
            Self::at(b, i, what) == (Ok::<Self::V, ErrorView>(v), i + Self::frame(v).len()),
    ;

    /// No value is written as nothing.
    proof fn law_frame_is_not_empty(v: Self::V)
        ensures
            Self::frame(v).len() > 0,
    ;

    /// More bytes behind those that were read change nothing.
    proof fn law_frame_is_stable(b: Seq<u8>, c: Seq<u8>, i: int, what: Seq<char>)
        requires
            0 <= i <= b.len(),
            is_prefix(b, c),
        ensures
            is_stable(Self::at(b, i, what), Self::at(c, i, what), i, b.len() as int, what),
    ;

    /// Where lengths of eight bytes are machine numbers, a value that is read stands there as it is
    /// written.
    proof fn law_frame_is_written(b: Seq<u8>, i: int, what: Seq<char>)
        requires
            0 <= i,
            usize::MAX == u64::MAX,
        ensures
            Self::at(b, i, what) matches (Ok(v), j) ==> {
                &&& is_at(b, i, Self::frame(v))
                &&& j == i + Self::frame(v).len()
            },
    ;
}

impl Framed for String {
    open spec fn frame(v: Seq<char>) -> Seq<u8> {
        text_frame(v)
    }

    open spec fn at(b: Seq<u8>, i: int, what: Seq<char>) -> (Result<Seq<char>, ErrorView>, int) {
        text_at(b, i, what)
    }

    fn put(&self, b: &mut Vec<u8>) {
        enc_str(b, self.as_str());
    }

    fn take_from(c: &mut Cur<'_>) -> (r: Result<String, Error>) {
        c.str()
    }

    proof fn law_frame_round_trips(v: Seq<char>, b: Seq<u8>, i: int, what: Seq<char>) {
        lemma_text_round_trips(b, i, v, what);
    }

    proof fn law_frame_is_not_empty(v: Seq<char>) {
        lemma_be_bytes_len(encode_utf8(v).len(), 8);
    }

    proof fn law_frame_is_stable(b: Seq<u8>, c: Seq<u8>, i: int, what: Seq<char>) {
        lemma_text_stable(b, c, i, what);
    }

    proof fn law_frame_is_written(b: Seq<u8>, i: int, what: Seq<char>) {
        lemma_text_is_framed(b, i, what);
    }
}

impl Framed for (String, String) {
    open spec fn frame(v: (Seq<char>, Seq<char>)) -> Seq<u8> {
        text_frame(v.0) + text_frame(v.1)
    }

    open spec fn at(b: Seq<u8>, i: int, what: Seq<char>) -> (
        Result<(Seq<char>, Seq<char>), ErrorView>,
        int,
    ) {
        match text_at(b, i, what) {
            (Ok(k), j) => match text_at(b, j, what) {
                (Ok(v), l) => (Ok((k, v)), l),
                (Err(e), l) => (Err(e), l),
            },
            (Err(e), j) => (Err(e), j),
        }
    }

    fn put(&self, b: &mut Vec<u8>) {
        enc_str(b, self.0.as_str());
        enc_str(b, self.1.as_str());
        assert(b@ =~= old(b)@ + Self::frame(self@));
    }

    fn take_from(c: &mut Cur<'_>) -> (r: Result<(String, String), Error>) {
        match c.str() {
            Ok(k) => match c.str() {
                Ok(v) => Ok((k, v)),
                Err(e) => Err(e),
            },
            Err(e) => Err(e),
        }
    }

    proof fn law_frame_round_trips(
        v: (Seq<char>, Seq<char>),
        b: Seq<u8>,
        i: int,
        what: Seq<char>,
    ) {
        lemma_at_split(b, i, text_frame(v.0), text_frame(v.1));
        lemma_text_round_trips(b, i, v.0, what);
        lemma_text_round_trips(b, i + text_frame(v.0).len(), v.1, what);
    }

    proof fn law_frame_is_not_empty(v: (Seq<char>, Seq<char>)) {
        lemma_be_bytes_len(encode_utf8(v.0).len(), 8);
    }

    proof fn law_frame_is_stable(b: Seq<u8>, c: Seq<u8>, i: int, what: Seq<char>) {
        lemma_text_stable(b, c, i, what);
        match text_at(b, i, what) {
            (Ok(_), j) => {
                lemma_text_stable(b, c, j, what);
            },
            _ => {},
        }
    }

    proof fn law_frame_is_written(b: Seq<u8>, i: int, what: Seq<char>) {
        lemma_text_is_framed(b, i, what);
        if let (Ok(k), j) = text_at(b, i, what) {
            lemma_text_is_framed(b, j, what);
            if let (Ok(v), _) = text_at(b, j, what) {
                lemma_at_join(b, i, text_frame(k), text_frame(v));
            }
        }
    }
}

/// The frames of a sequence of items, one behind the other.
pub open spec fn items_frame<T: Framed>(s: Seq<T::V>) -> Seq<u8>
    decreases s.len(),
{
    if s.len() == 0 {
        Seq::empty()
    } else {
        items_frame::<T>(s.drop_last()) + T::frame(s.last())
    }
}

/// A list: the number of its items, and their frames.
pub open spec fn list_frame<T: Framed>(s: Seq<T::V>) -> Seq<u8> {
    be_bytes(s.len(), 8) + items_frame::<T>(s)
}

/// The `n` items from position `i`, and the position after the attempt.
pub open spec fn items_at<T: Framed>(b: Seq<u8>, i: int, n: nat, what: Seq<char>) -> (
    Result<Seq<T::V>, ErrorView>,
    int,
)
    decreases n,
{
    if n == 0 {
        (Ok(Seq::empty()), i)
    } else {
        match items_at::<T>(b, i, (n - 1) as nat, what) {
            (Ok(vs), j) => match T::at(b, j, what) {
                (Ok(v), k) => (Ok(vs.push(v)), k),
                (Err(e), k) => (Err(e), k),
            },
            (Err(e), j) => (Err(e), j),
        }
    }
}

/// The list at position `i`, and the position after the attempt.
pub open spec fn list_at<T: Framed>(b: Seq<u8>, i: int, what: Seq<char>) -> (
    Result<Seq<T::V>, ErrorView>,
    int,
) {
    match u64_at(b, i, what) {
        (Ok(n), j) => items_at::<T>(b, j, (n as usize) as nat, what),
        (Err(e), j) => (Err(e), j),
    }
}

proof fn lemma_items_round_trip<T: Framed>(s: Seq<T::V>, b: Seq<u8>, i: int, what: Seq<char>)
    requires
        is_at(b, i, items_frame::<T>(s)),
        b.len() <= usize::MAX,
    ensures
        items_at::<T>(b, i, s.len(), what) == (
            Ok::<Seq<T::V>, ErrorView>(s),
            i + items_frame::<T>(s).len(),
        ),
    decreases s.len(),
{
    if s.len() == 0 {
        assert(s =~= Seq::empty());
    } else {
        let head = items_frame::<T>(s.drop_last());
        lemma_at_split(b, i, head, T::frame(s.last()));
        lemma_items_round_trip::<T>(s.drop_last(), b, i, what);
        T::law_frame_round_trips(s.last(), b, i + head.len(), what);
        assert(s.drop_last().push(s.last()) =~= s);
    }
}

proof fn lemma_items_stable<T: Framed>(b: Seq<u8>, c: Seq<u8>, i: int, n: nat, what: Seq<char>)
    requires
        0 <= i <= b.len(),
        is_prefix(b, c),
    ensures
        is_stable(items_at::<T>(b, i, n, what), items_at::<T>(c, i, n, what), i, b.len() as int, what),
    decreases n,
{
    if n > 0 {
        lemma_items_stable::<T>(b, c, i, (n - 1) as nat, what);
        match items_at::<T>(b, i, (n - 1) as nat, what) {
            (Ok(_), j) => {
                T::law_frame_is_stable(b, c, j, what);
            },
            _ => {},
        }
    }
}

/// A failure of a shorter run of items is the failure of every longer one.
proof fn lemma_items_failure<T: Framed>(b: Seq<u8>, i: int, m: nat, n: nat, what: Seq<char>)
    requires
        m <= n,
        items_at::<T>(b, i, m, what).0 is Err,
    ensures
        items_at::<T>(b, i, n, what) == items_at::<T>(b, i, m, what),
    decreases n,
{
    if m < n {
        lemma_items_failure::<T>(b, i, m, (n - 1) as nat, what);
    }
}

proof fn lemma_items_len<T: Framed>(s: Seq<T::V>)
    ensures
        s.len() <= items_frame::<T>(s).len(),
    decreases s.len(),
{
    if s.len() > 0 {
        lemma_items_len::<T>(s.drop_last());
        T::law_frame_is_not_empty(s.last());
    }
}

pub proof fn lemma_list_round_trips<T: Framed>(s: Seq<T::V>, b: Seq<u8>, i: int, what: Seq<char>)
    requires
        is_at(b, i, list_frame::<T>(s)),
        b.len() <= usize::MAX,
    ensures
        list_at::<T>(b, i, what) == (
            Ok::<Seq<T::V>, ErrorView>(s),
            i + list_frame::<T>(s).len(),
        ),
{
    lemma_be_bytes_len(s.len(), 8);
    lemma_items_len::<T>(s);
    lemma_at_split(b, i, be_bytes(s.len(), 8), items_frame::<T>(s));
    lemma_u64_round_trips(b, i, s.len() as u64, what);
    lemma_items_round_trip::<T>(s, b, i + 8, what);
}

pub proof fn lemma_list_stable<T: Framed>(b: Seq<u8>, c: Seq<u8>, i: int, what: Seq<char>)
    requires
        0 <= i <= b.len(),
        is_prefix(b, c),
    ensures
        is_stable(list_at::<T>(b, i, what), list_at::<T>(c, i, what), i, b.len() as int, what),
{
    lemma_take_stable(b, c, i, 8, what);
    match u64_at(b, i, what) {
        (Ok(n), j) => {
            lemma_items_stable::<T>(b, c, j, (n as usize) as nat, what);
        },
        _ => {},
    }
}

proof fn lemma_items_are_written<T: Framed>(b: Seq<u8>, i: int, n: nat, what: Seq<char>)
    requires
        0 <= i <= b.len(),
        usize::MAX == u64::MAX,
    ensures
        items_at::<T>(b, i, n, what) matches (Ok(s), j) ==> {
            &&& s.len() == n
            &&& is_at(b, i, items_frame::<T>(s))
            &&& j == i + items_frame::<T>(s).len()
        },
    decreases n,
{
    if n > 0 {
        lemma_items_are_written::<T>(b, i, (n - 1) as nat, what);
        if let (Ok(s), j) = items_at::<T>(b, i, (n - 1) as nat, what) {
            T::law_frame_is_written(b, j, what);
            if let (Ok(v), _) = T::at(b, j, what) {
                assert(s.push(v).drop_last() =~= s);
                lemma_at_join(b, i, items_frame::<T>(s), T::frame(v));
            }
        }
    } else {
        assert(b.subrange(i, i) =~= Seq::empty());
    }
}

/// Where counts of eight bytes are machine numbers, a list that is read stands there as it is written.
pub proof fn lemma_list_is_written<T: Framed>(b: Seq<u8>, i: int, what: Seq<char>)
    requires
        0 <= i,
        usize::MAX == u64::MAX,
    ensures
        list_at::<T>(b, i, what) matches (Ok(s), j) ==> {
            &&& is_at(b, i, list_frame::<T>(s))
            &&& j == i + list_frame::<T>(s).len()
        },
{
    if let (Ok(n), j) = u64_at(b, i, what) {
        let raw = b.subrange(i, i + 8);
        lemma_be_value_bound(raw);
        lemma_pow256_values();
        law_number_has_one_notation(raw);
        lemma_items_are_written::<T>(b, j, (n as usize) as nat, what);
        if let (Ok(s), _) = items_at::<T>(b, j, (n as usize) as nat, what) {
            lemma_at_join(b, i, raw, items_frame::<T>(s));
        }
    }
}

/// Appends a list behind its count.
pub fn put_list<T: Framed>(b: &mut Vec<u8>, items: &Vec<T>)
    ensures
        final(b)@ == old(b)@ + list_frame::<T>(order::views(items@)),
{
    let ghost start = b@;
    let ghost all = order::views(items@);
    let n: usize = items.len();
    put_u64(b, n as u64);
    let ghost counted = b@;
    for i in 0..n
        invariant
            n == items@.len(),
            all == order::views(items@),
            b@ == counted + items_frame::<T>(all.take(i as int)),
    {
        items[i].put(b);
        proof {
            let head = all.take(i + 1);
            assert(head.drop_last() =~= all.take(i as int));
            assert(head.last() == items@[i as int]@);
        }
        assert(b@ =~= counted + items_frame::<T>(all.take(i + 1)));
    }
    assert(all.take(n as int) =~= all);
    assert(b@ =~= start + list_frame::<T>(all));
}

/// The next list.
pub fn take_list<T: Framed>(c: &mut Cur<'_>) -> (r: Result<Vec<T>, Error>)
    requires
        old(c)@.wf(),
    ensures
        ({
            let (res, pos) = list_at::<T>(old(c)@.bytes, old(c)@.pos, old(c)@.what);
            &&& match r {
                Ok(v) => res == Ok::<Seq<T::V>, ErrorView>(order::views(v@)),
                Err(e) => res == Err::<Seq<T::V>, ErrorView>(e@),
            }
            &&& final(c)@ == old(c)@.moved(pos)
            &&& final(c)@.wf()
        }),
{
    let ghost start = c@;
    let n: usize = match c.u64() {
        Ok(n) => n as usize,
        Err(e) => return Err(e),
    };
    let ghost first = c@.pos;
    let mut items: Vec<T> = Vec::new();
    assert(order::views(items@) =~= Seq::empty());
    let mut k: usize = 0;
    while k < n
        invariant
            k <= n,
            start == old(c)@,
            c@ == start.moved(c@.pos),
            c@.wf(),
            list_at::<T>(start.bytes, start.pos, start.what) == items_at::<T>(
                start.bytes,
                first,
                n as nat,
                start.what,
            ),
            items_at::<T>(start.bytes, first, k as nat, start.what) == (
                Ok::<Seq<T::V>, ErrorView>(order::views(items@)),
                c@.pos,
            ),
        decreases n - k,
    {
        match T::take_from(c) {
            Ok(item) => {
                let ghost before = order::views(items@);
                items.push(item);
                assert(order::views(items@) =~= before.push(item@));
                k = k + 1;
            },
            Err(e) => {
                proof {
                    lemma_items_failure::<T>(
                        start.bytes,
                        first,
                        (k + 1) as nat,
                        n as nat,
                        start.what,
                    );
                }
                return Err(e);
            },
        }
    }
    Ok(items)
}

// ---------------------------------------------------------------------------------------------
// Laws of the layout
// ---------------------------------------------------------------------------------------------

/// A number of four bytes is written with its most significant byte first.
pub proof fn law_four_bytes_are_the_digits(n: u32)
    ensures
        be_bytes(n as nat, 4) == seq![
            (n / 0x100_0000) as u8,
            (n / 0x1_0000 % 0x100) as u8,
            (n / 0x100 % 0x100) as u8,
            (n % 0x100) as u8,
        ],
{
    reveal_with_fuel(be_bytes, 5);
    assert(be_bytes(n as nat, 4) =~= seq![
        (n / 0x100_0000) as u8,
        (n / 0x1_0000 % 0x100) as u8,
        (n / 0x100 % 0x100) as u8,
        (n % 0x100) as u8,
    ]);
}

/// A number of eight bytes is written with its most significant byte first.
#[verifier::spinoff_prover]
#[verifier::rlimit(40)]
pub proof fn law_eight_bytes_are_the_digits(n: u64)
    ensures
        be_bytes(n as nat, 8) == seq![
            (n / 0x100_0000_0000_0000) as u8,
            (n / 0x1_0000_0000_0000 % 0x100) as u8,
            (n / 0x100_0000_0000 % 0x100) as u8,
            (n / 0x1_0000_0000 % 0x100) as u8,
            (n / 0x100_0000 % 0x100) as u8,
            (n / 0x1_0000 % 0x100) as u8,
            (n / 0x100 % 0x100) as u8,
            (n % 0x100) as u8,
        ],
{
    let m: nat = n as nat;
    let m1: nat = m / 0x100;
    let m2: nat = m / 0x1_0000;
    let m3: nat = m / 0x100_0000;
    let m4: nat = m / 0x1_0000_0000;
    let m5: nat = m / 0x100_0000_0000;
    let m6: nat = m / 0x1_0000_0000_0000;
    let m7: nat = m / 0x100_0000_0000_0000;
    assert(m1 / 0x100 == m2);
    assert(m2 / 0x100 == m3);
    assert(m3 / 0x100 == m4);
    assert(m4 / 0x100 == m5);
    assert(m5 / 0x100 == m6);
    assert(m6 / 0x100 == m7);
    assert(m7 < 0x100);
    assert(be_bytes(m7, 1) =~= seq![m7 as u8]) by {
        assert(be_bytes(m7 / 256, 0) =~= Seq::empty());
    }
    assert(be_bytes(m6, 2) =~= seq![m7 as u8, (m6 % 256) as u8]);
    assert(be_bytes(m5, 3) =~= seq![m7 as u8, (m6 % 256) as u8, (m5 % 256) as u8]);
    assert(be_bytes(m4, 4) =~= seq![
        m7 as u8,
        (m6 % 256) as u8,
        (m5 % 256) as u8,
        (m4 % 256) as u8,
    ]);
    assert(be_bytes(m3, 5) =~= be_bytes(m4, 4).push((m3 % 256) as u8));
    assert(be_bytes(m2, 6) =~= be_bytes(m3, 5).push((m2 % 256) as u8));
    assert(be_bytes(m1, 7) =~= be_bytes(m2, 6).push((m1 % 256) as u8));
    assert(be_bytes(m, 8) =~= be_bytes(m1, 7).push((m % 256) as u8));
}

/// A frame is the length in eight bytes and then the bytes themselves; that of a text holds its UTF-8
/// bytes.
pub proof fn law_frame_is_length_and_bytes(s: Seq<u8>, t: Seq<char>)
    ensures
        bytes_frame(s).len() == 8 + s.len(),
        bytes_frame(s).take(8) == be_bytes(s.len(), 8),
        bytes_frame(s).skip(8) == s,
        text_frame(t).len() == 8 + encode_utf8(t).len(),
        text_frame(t).take(8) == be_bytes(encode_utf8(t).len(), 8),
        text_frame(t).skip(8) == encode_utf8(t),
{
    lemma_be_bytes_len(s.len(), 8);
    lemma_be_bytes_len(encode_utf8(t).len(), 8);
    assert(bytes_frame(s).take(8) =~= be_bytes(s.len(), 8));
    assert(bytes_frame(s).skip(8) =~= s);
    assert(text_frame(t).take(8) =~= be_bytes(encode_utf8(t).len(), 8));
    assert(text_frame(t).skip(8) =~= encode_utf8(t));
}

/// A list is the number of its items in eight bytes and then the items, one behind the other: a further
/// item stands behind all others.
pub proof fn law_list_is_count_and_items<T: Framed>(s: Seq<T::V>, more: T::V)
    ensures
        list_frame::<T>(Seq::empty()) == be_bytes(0, 8),
        list_frame::<T>(s).take(8) == be_bytes(s.len(), 8),
        list_frame::<T>(s.push(more)).skip(8) == list_frame::<T>(s).skip(8) + T::frame(more),
{
    lemma_be_bytes_len(0, 8);
    lemma_be_bytes_len(s.len(), 8);
    lemma_be_bytes_len(s.len() + 1, 8);
    assert(s.push(more).drop_last() =~= s);
    assert(list_frame::<T>(Seq::empty()) =~= be_bytes(0, 8));
    assert(list_frame::<T>(s).take(8) =~= be_bytes(s.len(), 8));
    assert(list_frame::<T>(s).skip(8) =~= items_frame::<T>(s));
    assert(list_frame::<T>(s.push(more)).skip(8) =~= items_frame::<T>(s) + T::frame(more));
}

/// The item of a list of texts is the frame of the text; that of a list of pairs the frames of both.
pub proof fn law_items_are_frames(t: Seq<char>, pair: (Seq<char>, Seq<char>))
    ensures
        <String as Framed>::frame(t) == text_frame(t),
        <(String, String) as Framed>::frame(pair) == text_frame(pair.0) + text_frame(pair.1),
{
}

} // verus!
