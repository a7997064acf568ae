//! Requests in a stream of bytes, and the answers to them.
use crate::bytes::{
    find_byte, find_match, first_byte, first_match, lemma_first_byte, lemma_first_match, matches_at,
};
use crate::calendar::ZERO;
use crate::scan::{after_digits, lemma_after_digits, NINE, SPACE};
use vstd::prelude::*;
use vstd::string::StringSliceAdditionalSpecFns;

verus! {

/// What stands between the first two spaces; nothing if there are no two.
pub open spec fn path_in(buf: Seq<u8>) -> Seq<u8> {
    match first_byte(buf, 0, SPACE) {
        Some(i) => match first_byte(buf, i + 1, SPACE) {
            Some(j) => buf.subrange(i + 1, j),
            None => Seq::empty(),
        },
        None => Seq::empty(),
    }
}

/// The path that a request asks for.
pub fn http_path(buf: &[u8]) -> (path: &[u8])
    ensures
        path@ == path_in(buf@),
{
    let a: usize = match find_byte(buf, 0, SPACE) {
        Some(i) => i + 1,
        None => {
            return &[];
        },
    };
    let b: usize = match find_byte(buf, a, SPACE) {
        Some(i) => i,
        None => {
            return &[];
        },
    };
    &buf[a..b]
}

/// The first position at or after `p` that holds no space.
pub open spec fn after_spaces(s: Seq<u8>, p: int) -> int
    decreases s.len() - p,
{
    if p < s.len() && s[p] == SPACE {
        after_spaces(s, p + 1)
    } else {
        p
    }
}

/// The number that digits make.
pub open spec fn decimal_value(digits: Seq<u8>) -> nat
    decreases digits.len(),
{
    if digits.len() == 0 {
        0
    } else {
        (decimal_value(digits.drop_last()) * 10 + (digits.last() - ZERO)) as nat
    }
}

/// The number behind spaces from `p` on; 0 if there are no digits.
pub open spec fn value_at(s: Seq<u8>, p: int) -> nat {
    let a = after_spaces(s, p);
    decimal_value(s.subrange(a, after_digits(s, a)))
}

/// The spellings of the header that gives the length of the body, in the
/// order in which they are looked for.
pub open spec fn length_tags() -> Seq<Seq<u8>> {
    seq![
        "Content-Length: ".spec_bytes(),
        "content-length: ".spec_bytes(),
        "Content-Length:".spec_bytes(),
        "content-length:".spec_bytes(),
    ]
}

/// The length that the first spelling gives, of those from the `i`th on that
/// occur.
pub open spec fn length_by_tags(hdr: Seq<u8>, i: int) -> nat
    decreases 4 - i,
{
    if i < 0 || i >= 4 {
        0
    } else {
        match first_match(hdr, 0, length_tags()[i]) {
            Some(at) => value_at(hdr, at + length_tags()[i].len()),
            None => length_by_tags(hdr, i + 1),
        }
    }
}

/// The length of the body that a header announces.
pub open spec fn content_length(hdr: Seq<u8>) -> nat {
    length_by_tags(hdr, 0)
}

/// A number does not shrink as digits are added.
proof fn lemma_decimal_grows(digits: Seq<u8>, n: int)
    requires
        0 <= n <= digits.len(),
        crate::scan::all_digits(digits),
    ensures
        decimal_value(digits.take(n)) <= decimal_value(digits),
    decreases digits.len() - n,
{
    if n < digits.len() {
        lemma_decimal_grows(digits, n + 1);
        assert(digits.take(n + 1).drop_last() =~= digits.take(n));
    } else {
        assert(digits.take(n) =~= digits);
    }
}

/// Reads the number behind spaces, if it is not too large.
fn read_value(s: &[u8], p: usize) -> (n: Option<usize>)
    requires
        p <= s.len(),
    ensures
        match n {
            Some(v) => v == value_at(s@, p as int),
            None => value_at(s@, p as int) > usize::MAX,
        },
{
    let mut a: usize = p;
    while a < s.len() && s[a] == SPACE
        invariant
            p <= a <= s.len(),
            after_spaces(s@, p as int) == after_spaces(s@, a as int),
        decreases s.len() - a,
    {
        a = a + 1;
    }
    let ghost e = after_digits(s@, a as int);
    let ghost digits = s@.subrange(a as int, e);
    proof {
        lemma_after_digits(s@, a as int);
    }
    let mut n: usize = 0;
    let mut i: usize = a;
    assert(digits.take(0) =~= Seq::<u8>::empty());
    while i < s.len() && s[i] >= ZERO && s[i] <= NINE
        invariant
            a <= i <= e <= s.len(),
            e == after_digits(s@, a as int),
            e == after_digits(s@, i as int),
            digits == s@.subrange(a as int, e),
            crate::scan::all_digits(digits),
            n == decimal_value(digits.take(i - a)),
            value_at(s@, p as int) == decimal_value(digits),
        decreases s.len() - i,
    {
        let d: usize = (s[i] - ZERO) as usize;
        proof {
            lemma_after_digits(s@, i + 1);
            lemma_decimal_grows(digits, i + 1 - a);
            assert(digits.take(i + 1 - a).drop_last() =~= digits.take(i - a));
            assert(digits.take(i + 1 - a).last() == s@[i as int]);
        }
        if n > usize::MAX / 10 {
            return None;
        }
        let tens: usize = n * 10;
        if d > usize::MAX - tens {
            return None;
        }
        n = tens + d;
        i = i + 1;
    }
    assert(digits.take(i - a) =~= digits);
    Some(n)
}

/// The length of the body that a header announces, if it is not too large.
pub fn checked_content_length(hdr: &[u8]) -> (n: Option<usize>)
    ensures
        match n {
            Some(v) => v == content_length(hdr@),
            None => content_length(hdr@) > usize::MAX,
        },
{
    let tags: [&[u8]; 4] = [
        "Content-Length: ".as_bytes(),
        "content-length: ".as_bytes(),
        "Content-Length:".as_bytes(),
        "content-length:".as_bytes(),
    ];
    let mut i: usize = 0;
    while i < 4
        invariant
            i <= 4,
            forall|j: int| 0 <= j < 4 ==> (#[trigger] tags@[j])@ == length_tags()[j],
            content_length(hdr@) == length_by_tags(hdr@, i as int),
        decreases 4 - i,
    {
        let tag = tags[i];
        assert(tag@ == length_tags()[i as int]);
        if let Some(pos) = find_match(hdr, 0, tag) {
            return read_value(hdr, pos + tag.len());
        }
        i = i + 1;
    }
    Some(0)
}

/// The length of the body that a header announces.
pub fn http_content_length(hdr: &[u8]) -> (n: usize)
    requires
        content_length(hdr@) <= usize::MAX,
    ensures
        n == content_length(hdr@),
{
    match checked_content_length(hdr) {
        Some(n) => n,
        None => 0,
    }
}

/// What a stream of bytes starts with.
#[derive(Clone, Copy, Debug, PartialEq, Eq, Structural)]
pub enum Frame {
    /// Not yet a whole request.
    Partial,
    /// A request that is longer than any memory.
    Overflow,
    /// A request: a head and a body of these lengths.
    Complete { head: usize, body: usize },
}

/// What `data` starts with.
pub open spec fn frame_of(data: Seq<u8>) -> Frame {
    match first_match(data, 0, "\r\n\r\n".spec_bytes()) {
        Some(end) => {
            let head = end + "\r\n\r\n".spec_bytes().len();
            let body = content_length(data.take(head));
            if head + body > usize::MAX {
                Frame::Overflow
            } else if data.len() < head + body {
                Frame::Partial
            } else {
                Frame::Complete { head: head as usize, body: body as usize }
            }
        },
        None => Frame::Partial,
    }
}

/// Looks for a request at the start of `data`.
pub fn next_frame(data: &[u8]) -> (frame: Frame)
    ensures
        frame == frame_of(data@),
        frame matches Frame::Complete { head, body } ==> 4 <= head && head + body <= data.len(),
{
    let len = data.len();
    let gap = "\r\n\r\n".as_bytes();
    proof {
        lemma_gap_is_four();
    }
    let head: usize = match find_match(data, 0, gap) {
        Some(i) => i + gap.len(),
        None => {
            return Frame::Partial;
        },
    };
    assert(data@.take(head as int) =~= data@.subrange(0, head as int));
    let body: usize = match checked_content_length(&data[0..head]) {
        Some(n) => n,
        None => {
            return Frame::Overflow;
        },
    };
    if body > usize::MAX - head {
        return Frame::Overflow;
    }
    if len < head + body {
        return Frame::Partial;
    }
    Frame::Complete { head, body }
}

/// The empty line behind a head is four bytes long.
pub proof fn lemma_gap_is_four()
    ensures
        "\r\n\r\n".spec_bytes().len() == 4,
{
    reveal_strlit("\r\n\r\n");
    assert("\r\n\r\n".is_ascii());
}

/// What a request asks for.
#[derive(Clone, Copy, Debug, PartialEq, Eq, Structural)]
pub enum Route {
    Score,
    Ready,
    Other,
}

/// What a path stands for.
pub open spec fn route_of(path: Seq<u8>) -> Route {
    if path == "/fraud-score".spec_bytes() {
        Route::Score
    } else if path == "/ready".spec_bytes() {
        Route::Ready
    } else {
        Route::Other
    }
}

fn same_bytes(a: &[u8], b: &[u8]) -> (yes: bool)
    ensures
        yes == (a@ == b@),
{
    if a.len() != b.len() {
        return false;
    }
    assert(a@.subrange(0, b@.len() as int) =~= a@);
    crate::bytes::is_match(a, 0, b)
}

/// Finds out what a path stands for.
pub fn find_route(path: &[u8]) -> (route: Route)
    ensures
        route == route_of(path@),
{
    if same_bytes(path, "/fraud-score".as_bytes()) {
        Route::Score
    } else if same_bytes(path, "/ready".as_bytes()) {
        Route::Ready
    } else {
        Route::Other
    }
}

/// The digits from `a` up to `b` stand behind spaces from `p` on, and no digit
/// follows them.
pub open spec fn is_value_from(s: Seq<u8>, p: int, a: int, b: int) -> bool {
    &&& 0 <= p <= a <= b <= s.len()
    &&& forall|j: int| p <= j < a ==> #[trigger] s[j] == 32
    &&& a < s.len() ==> s[a] != 32
    &&& forall|j: int| a <= j < b ==> 48 <= #[trigger] s[j] <= 57
    &&& b < s.len() ==> !(48 <= s[b] <= 57)
}

proof fn lemma_after_spaces(s: Seq<u8>, p: int, a: int)
    requires
        0 <= p <= a <= s.len(),
        forall|j: int| p <= j < a ==> #[trigger] s[j] == 32,
        a < s.len() ==> s[a] != 32,
    ensures
        after_spaces(s, p) == a,
    decreases a - p,
{
    if p < a {
        lemma_after_spaces(s, p + 1, a);
    }
}

proof fn lemma_after_digits_is(s: Seq<u8>, a: int, b: int)
    requires
        0 <= a <= b <= s.len(),
        forall|j: int| a <= j < b ==> 48 <= #[trigger] s[j] <= 57,
        b < s.len() ==> !(48 <= s[b] <= 57),
    ensures
        after_digits(s, a) == b,
    decreases b - a,
{
    if a < b {
        lemma_after_digits_is(s, a + 1, b);
    }
}

/// A number grows tenfold with each digit, and by the digit.
pub proof fn law_digits_make_a_length(digits: Seq<u8>, x: u8)
    requires
        48 <= x <= 57,
    ensures
        decimal_value(Seq::empty()) == 0,
        decimal_value(digits.push(x)) == 10 * decimal_value(digits) + (x - 48),
{
    assert(digits.push(x).drop_last() =~= digits);
}

/// The tag stands in the head at `i`, and nowhere before.
pub open spec fn is_first_at(hdr: Seq<u8>, tag: Seq<u8>, i: int) -> bool {
    matches_at(hdr, i, tag) && forall|j: int| 0 <= j < i ==> !#[trigger] matches_at(hdr, j, tag)
}

/// The tag stands nowhere in the head.
pub open spec fn is_absent(hdr: Seq<u8>, tag: Seq<u8>) -> bool {
    forall|j: int| 0 <= j ==> !#[trigger] matches_at(hdr, j, tag)
}

/// The length of a body is the number behind the tag, wherever the tag stands
/// in the head. Of several spellings of the tag the capitalised one with a
/// space comes first, then the other with a space, then the two without one;
/// of several places the first. Without a tag the length is 0.
pub proof fn law_content_length_is_announced(hdr: Seq<u8>, i: int, a: int, b: int)
    ensures
        ({
            let capital = "Content-Length: ".spec_bytes();
            let small = "content-length: ".spec_bytes();
            let capital_close = "Content-Length:".spec_bytes();
            let small_close = "content-length:".spec_bytes();
            let announced = decimal_value(hdr.subrange(a, b));
            &&& is_first_at(hdr, capital, i) && is_value_from(hdr, i + capital.len(), a, b)
                ==> content_length(hdr) == announced
            &&& is_absent(hdr, capital) && is_first_at(hdr, small, i) && is_value_from(
                hdr,
                i + small.len(),
                a,
                b,
            ) ==> content_length(hdr) == announced
            &&& is_absent(hdr, capital) && is_absent(hdr, small) && is_first_at(
                hdr,
                capital_close,
                i,
            ) && is_value_from(hdr, i + capital_close.len(), a, b) ==> content_length(hdr)
                == announced
            &&& is_absent(hdr, capital) && is_absent(hdr, small) && is_absent(hdr, capital_close)
                && is_first_at(hdr, small_close, i) && is_value_from(
                hdr,
                i + small_close.len(),
                a,
                b,
            ) ==> content_length(hdr) == announced
            &&& is_absent(hdr, capital) && is_absent(hdr, small) && is_absent(hdr, capital_close)
                && is_absent(hdr, small_close) ==> content_length(hdr) == 0
        }),
{
    let capital = "Content-Length: ".spec_bytes();
    let small = "content-length: ".spec_bytes();
    let capital_close = "Content-Length:".spec_bytes();
    let small_close = "content-length:".spec_bytes();
    reveal_with_fuel(length_by_tags, 5);
    lemma_first_match(hdr, 0, capital);
    lemma_first_match(hdr, 0, small);
    lemma_first_match(hdr, 0, capital_close);
    lemma_first_match(hdr, 0, small_close);
    lemma_value_from(hdr, i + capital.len(), a, b);
    lemma_value_from(hdr, i + small.len(), a, b);
    lemma_value_from(hdr, i + capital_close.len(), a, b);
    lemma_value_from(hdr, i + small_close.len(), a, b);
    lemma_first_at(hdr, capital, i);
    lemma_first_at(hdr, small, i);
    lemma_first_at(hdr, capital_close, i);
    lemma_first_at(hdr, small_close, i);
}

proof fn lemma_value_from(hdr: Seq<u8>, p: int, a: int, b: int)
    ensures
        is_value_from(hdr, p, a, b) ==> value_at(hdr, p) == decimal_value(hdr.subrange(a, b)),
{
    if is_value_from(hdr, p, a, b) {
        lemma_after_spaces(hdr, p, a);
        lemma_after_digits_is(hdr, a, b);
    }
}

proof fn lemma_first_at(hdr: Seq<u8>, tag: Seq<u8>, i: int)
    ensures
        is_first_at(hdr, tag, i) ==> first_match(hdr, 0, tag) == Some(i),
        is_absent(hdr, tag) ==> first_match(hdr, 0, tag) is None,
{
    lemma_first_match(hdr, 0, tag);
}

/// A request is whole if and only if it has a head, which ends with the first
/// empty line, and as many bytes behind it as the head announces; one that
/// announces more than can be counted is never whole.
pub proof fn law_requests_are_framed(data: Seq<u8>, head: int)
    ensures
        ({
            let gap = "\r\n\r\n".spec_bytes();
            &&& is_absent(data, gap) ==> frame_of(data) == Frame::Partial
            &&& is_first_at(data, gap, head - 4) ==> {
                let body = content_length(data.take(head));
                &&& head + body > usize::MAX ==> frame_of(data) == Frame::Overflow
                &&& data.len() < head + body <= usize::MAX ==> frame_of(data) == Frame::Partial
                &&& head + body <= data.len() && head + body <= usize::MAX ==> frame_of(data) == (
                Frame::Complete { head: head as usize, body: body as usize })
            }
        }),
{
    lemma_gap_is_four();
    lemma_first_at(data, "\r\n\r\n".spec_bytes(), head - 4);
}

/// The path of a request stands between its first two spaces.
pub proof fn law_paths_stand_between_spaces(buf: Seq<u8>, i: int, j: int)
    ensures
        0 <= i < j < buf.len() && buf[i] == 32 && buf[j] == 32 && (forall|k: int|
            0 <= k < i ==> buf[k] != 32) && (forall|k: int| i < k < j ==> buf[k] != 32) ==> path_in(
            buf,
        ) == buf.subrange(i + 1, j),
        (forall|k: int, l: int| 0 <= k < l < buf.len() ==> !(buf[k] == 32 && buf[l] == 32))
            ==> path_in(buf) == Seq::<u8>::empty(),
{
    lemma_first_byte(buf, 0, 32);
    if first_byte(buf, 0, 32) is Some {
        lemma_first_byte(buf, first_byte(buf, 0, 32)->0 + 1, 32);
    }
}

/// Two paths stand for something, each exactly as it is spelled.
pub proof fn law_paths_have_routes(path: Seq<u8>)
    ensures
        route_of(path) == Route::Score <==> path == "/fraud-score".spec_bytes(),
        route_of(path) == Route::Ready <==> path == "/ready".spec_bytes(),
        route_of(path) == Route::Other <==> path != "/fraud-score".spec_bytes() && path
            != "/ready".spec_bytes(),
{
    reveal_strlit("/fraud-score");
    reveal_strlit("/ready");
    assert("/fraud-score".is_ascii() && "/ready".is_ascii());
    assert("/fraud-score".spec_bytes().len() != "/ready".spec_bytes().len());
}

} // verus!
