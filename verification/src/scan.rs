//! Reading a JSON text from front to back.
//!
//! The readers do not parse the text as a whole. They look for keys and read
//! the values behind them; a position in the text moves along.
use crate::bytes::{find_byte, first_byte, is_match, lemma_first_byte, matches_at};
use crate::calendar::ZERO;
use vstd::prelude::*;
use vstd::string::StringSliceAdditionalSpecFns;

verus! {

pub const QUOTE: u8 = 34;

pub const COLON: u8 = 58;

pub const SPACE: u8 = 32;

pub const MINUS: u8 = 45;

pub const POINT: u8 = 46;

pub const NINE: u8 = 57;

/// The first position at or after `p` that holds no white space (nor any
/// other byte up to the space).
pub open spec fn after_ws(s: Seq<u8>, p: int) -> int
    decreases s.len() - p,
{
    if p < s.len() && s[p] <= SPACE {
        after_ws(s, p + 1)
    } else {
        p
    }
}

/// The first position at or after `p` that holds no digit.
pub open spec fn after_digits(s: Seq<u8>, p: int) -> int
    decreases s.len() - p,
{
    if p < s.len() && ZERO <= s[p] <= NINE {
        after_digits(s, p + 1)
    } else {
        p
    }
}

/// Where the value behind the next colon starts, and whether there is one.
pub open spec fn after_colon(s: Seq<u8>, p: int) -> (bool, int) {
    match first_byte(s, p, COLON) {
        Some(i) => (after_ws(s, i + 1) < s.len(), after_ws(s, i + 1)),
        None => (false, s.len() as int),
    }
}

/// The next quoted string and the position behind it; an empty one, and no
/// move, if there is none.
pub open spec fn string_at(s: Seq<u8>, p: int) -> (Seq<u8>, int) {
    match first_byte(s, p, QUOTE) {
        Some(open) => match first_byte(s, open + 1, QUOTE) {
            Some(close) => (s.subrange(open + 1, close), close + 1),
            None => (Seq::empty(), p),
        },
        None => (Seq::empty(), p),
    }
}

/// The key stands at `q` in quotes, and the text goes on behind it.
pub open spec fn is_key_at(s: Seq<u8>, q: int, key: Seq<u8>) -> bool {
    &&& q + 1 + key.len() < s.len()
    &&& matches_at(s, q + 1, key)
    &&& s[q + 1 + key.len()] == QUOTE
}

/// Whether the key stands in quotes somewhere, and the position behind it; if
/// it does not, the position behind the last quote.
pub open spec fn after_key(s: Seq<u8>, p: int, key: Seq<u8>) -> (bool, int)
    decreases s.len() - p,
{
    match first_byte(s, p, QUOTE) {
        Some(q) => if is_key_at(s, q, key) {
            (true, q + key.len() + 2)
        } else {
            proof {
                lemma_first_byte(s, p, QUOTE);
            }
            after_key(s, q + 1, key)
        },
        None => (false, p),
    }
}

/// A number as it is written: the digits before and behind the point, and the
/// sign.
#[derive(Clone, Copy)]
pub struct Decimal<'a> {
    pub negative: bool,
    pub whole: &'a [u8],
    pub fraction: &'a [u8],
}

/// The model of a [`Decimal`].
pub struct DecimalView {
    pub negative: bool,
    pub whole: Seq<u8>,
    pub fraction: Seq<u8>,
}

impl<'a> View for Decimal<'a> {
    type V = DecimalView;

    open spec fn view(&self) -> DecimalView {
        DecimalView {
            negative: self.negative,
            whole: self.whole@,
            fraction: self.fraction@,
        }
    }
}

/// Nothing but digits.
pub open spec fn all_digits(s: Seq<u8>) -> bool {
    forall|i: int| 0 <= i < s.len() ==> ZERO <= #[trigger] s[i] <= NINE
}

impl DecimalView {
    /// There are digits, and nothing but digits.
    pub open spec fn is_number(self) -> bool {
        &&& all_digits(self.whole)
        &&& all_digits(self.fraction)
        &&& self.whole.len() + self.fraction.len() > 0
    }
}

/// The digits from `p` on, and behind a point.
pub open spec fn digits_at(s: Seq<u8>, p: int, negative: bool) -> (Option<DecimalView>, int) {
    let e = after_digits(s, p);
    let (fraction, f) = if e < s.len() && s[e] == POINT {
        (s.subrange(e + 1, after_digits(s, e + 1)), after_digits(s, e + 1))
    } else {
        (Seq::empty(), e)
    };
    let whole = s.subrange(p, e);
    if whole.len() + fraction.len() > 0 {
        (Some(DecimalView { negative, whole, fraction }), f)
    } else {
        (None, f)
    }
}

/// The next number, if the next thing is one, and the position behind what was
/// read.
pub open spec fn number_at(s: Seq<u8>, p: int) -> (Option<DecimalView>, int) {
    let i = after_ws(s, p);
    if i >= s.len() {
        (None, i)
    } else if s[i] == MINUS {
        if i + 1 >= s.len() {
            (None, i + 1)
        } else {
            digits_at(s, i + 1, true)
        }
    } else {
        digits_at(s, i, false)
    }
}

/// The next truth value, if the next thing is one, and the position behind it.
pub open spec fn bool_at(s: Seq<u8>, p: int) -> (Option<bool>, int) {
    let i = after_ws(s, p);
    if matches_at(s, i, "true".spec_bytes()) {
        (Some(true), i + "true".spec_bytes().len())
    } else if matches_at(s, i, "false".spec_bytes()) {
        (Some(false), i + "false".spec_bytes().len())
    } else {
        (None, i)
    }
}

pub proof fn lemma_after_digits(s: Seq<u8>, p: int)
    requires
        0 <= p <= s.len(),
    ensures
        p <= after_digits(s, p) <= s.len(),
        all_digits(s.subrange(p, after_digits(s, p))),
        after_digits(s, p) < s.len() ==> !(ZERO <= s[after_digits(s, p)] <= NINE),
    decreases s.len() - p,
{
    if p < s.len() && ZERO <= s[p] <= NINE {
        lemma_after_digits(s, p + 1);
        let e = after_digits(s, p);
        assert forall|i: int| 0 <= i < e - p implies ZERO <= #[trigger] s.subrange(p, e)[i]
            <= NINE by {
            if i > 0 {
                assert(s.subrange(p + 1, e)[i - 1] == s[p + i]);
            }
        }
    }
}

pub fn skip_ws(s: &[u8], p: &mut usize)
    requires
        *old(p) <= s.len(),
    ensures
        *final(p) == after_ws(s@, *old(p) as int),
        *old(p) <= *final(p) <= s.len(),
{
    let mut i: usize = *p;
    while i < s.len() && s[i] <= SPACE
        invariant
            *p <= i <= s.len(),
            after_ws(s@, *p as int) == after_ws(s@, i as int),
        decreases s.len() - i,
    {
        i = i + 1;
    }
    *p = i;
}

/// Moves behind the next colon, to where its value starts.
pub fn past_colon(s: &[u8], p: &mut usize) -> (ok: bool)
    requires
        *old(p) <= s.len(),
    ensures
        (ok, *final(p) as int) == after_colon(s@, *old(p) as int),
        *final(p) <= s.len(),
        ok ==> *final(p) < s.len(),
{
    match find_byte(s, *p, COLON) {
        Some(i) => {
            *p = i + 1;
            skip_ws(s, p);
            *p < s.len()
        },
        None => {
            *p = s.len();
            false
        },
    }
}

/// Reads the next quoted string.
pub fn read_string<'a>(s: &'a [u8], p: &mut usize) -> (text: &'a [u8])
    requires
        *old(p) <= s.len(),
    ensures
        (text@, *final(p) as int) == string_at(s@, *old(p) as int),
        *final(p) <= s.len(),
{
    let open: usize = match find_byte(s, *p, QUOTE) {
        Some(i) => i,
        None => {
            return &[];
        },
    };
    let close: usize = match find_byte(s, open + 1, QUOTE) {
        Some(i) => i,
        None => {
            return &[];
        },
    };
    *p = close + 1;
    &s[open + 1..close]
}

fn skip_digits(s: &[u8], p: usize) -> (e: usize)
    requires
        p <= s.len(),
    ensures
        e == after_digits(s@, p as int),
        p <= e <= s.len(),
{
    let mut i: usize = p;
    while i < s.len() && s[i] >= ZERO && s[i] <= NINE
        invariant
            p <= i <= s.len(),
            after_digits(s@, p as int) == after_digits(s@, i as int),
        decreases s.len() - i,
    {
        i = i + 1;
    }
    i
}

/// Reads the next number.
pub fn read_number<'a>(s: &'a [u8], p: &mut usize) -> (num: Option<Decimal<'a>>)
    requires
        *old(p) <= s.len(),
    ensures
        number_at(s@, *old(p) as int) == (
            match num {
                Some(n) => Some(n@),
                None => None,
            },
            *final(p) as int,
        ),
        num matches Some(n) ==> n@.is_number(),
        *final(p) <= s.len(),
{
    skip_ws(s, p);
    if *p >= s.len() {
        return None;
    }
    let negative = s[*p] == MINUS;
    if negative {
        *p = *p + 1;
        if *p >= s.len() {
            return None;
        }
    }
    let start: usize = *p;
    let e = skip_digits(s, start);
    proof {
        lemma_after_digits(s@, start as int);
    }
    let whole: &'a [u8] = &s[start..e];
    let fraction: &'a [u8];
    if e < s.len() && s[e] == POINT {
        let f = skip_digits(s, e + 1);
        proof {
            lemma_after_digits(s@, e + 1);
        }
        fraction = &s[e + 1..f];
        *p = f;
    } else {
        fraction = &[];
        *p = e;
    }
    assert(fraction@.len() == 0 ==> fraction@ =~= Seq::<u8>::empty());
    if whole.len() == 0 && fraction.len() == 0 {
        return None;
    }
    Some(Decimal { negative, whole, fraction })
}

/// Reads the next truth value.
pub fn read_bool(s: &[u8], p: &mut usize) -> (b: Option<bool>)
    requires
        *old(p) <= s.len(),
    ensures
        (b, *final(p) as int) == bool_at(s@, *old(p) as int),
        *final(p) <= s.len(),
{
    skip_ws(s, p);
    let yes = "true".as_bytes();
    if is_match(s, *p, yes) {
        *p = *p + yes.len();
        return Some(true);
    }
    let no = "false".as_bytes();
    if is_match(s, *p, no) {
        *p = *p + no.len();
        return Some(false);
    }
    None
}

/// Moves behind the next place where the key stands in quotes.
pub fn seek_key(s: &[u8], p: &mut usize, key: &[u8]) -> (found: bool)
    requires
        *old(p) <= s.len(),
    ensures
        (found, *final(p) as int) == after_key(s@, *old(p) as int, key@),
        *final(p) <= s.len(),
{
    let mut i: usize = *p;
    loop
        invariant
            i <= s.len(),
            *p == *old(p),
            after_key(s@, *p as int, key@) == after_key(s@, i as int, key@),
        decreases s.len() - i,
    {
        let q: usize = match find_byte(s, i, QUOTE) {
            Some(q) => q,
            None => {
                *p = i;
                return false;
            },
        };
        if key.len() < s.len() - (q + 1) && is_match(s, q + 1, key) && s[q + 1 + key.len()]
            == QUOTE {
            *p = q + 1 + key.len() + 1;
            return true;
        }
        i = q + 1;
    }
}

/// `text` in quotes.
pub open spec fn quoted(text: Seq<u8>) -> Seq<u8> {
    seq![QUOTE] + text + seq![QUOTE]
}

/// The quote at `q` opens the key if and only if the key stands there in
/// quotes.
proof fn lemma_key_is_quoted(s: Seq<u8>, q: int, key: Seq<u8>)
    requires
        0 <= q < s.len(),
    ensures
        s[q] == QUOTE && is_key_at(s, q, key) <==> matches_at(s, q, quoted(key)),
{
    let n = key.len() as int;
    if s[q] == QUOTE && is_key_at(s, q, key) {
        assert(s.subrange(q, q + n + 2) =~= quoted(key)) by {
            assert forall|i: int| 0 <= i < n implies s[q + 1 + i] == key[i] by {
                assert(s.subrange(q + 1, q + 1 + n)[i] == key[i]);
            }
        }
    }
    if matches_at(s, q, quoted(key)) {
        let m = s.subrange(q, q + n + 2);
        assert(m == quoted(key));
        assert(m[0] == QUOTE);
        assert(m[n + 1] == QUOTE);
        assert(s.subrange(q + 1, q + 1 + n) =~= key) by {
            assert forall|i: int| 0 <= i < n implies s[q + 1 + i] == key[i] by {
                assert(m[i + 1] == key[i]);
            }
        }
    }
}

/// A key is found from `p` on if and only if it stands there somewhere in
/// quotes, and then the position moves right behind the first such place;
/// otherwise it moves behind the last quote.
pub proof fn law_keys_are_found_in_quotes(s: Seq<u8>, p: int, key: Seq<u8>)
    requires
        0 <= p <= s.len(),
    ensures
        ({
            let (found, e) = after_key(s, p, key);
            let at = e - key.len() - 2;
            &&& found <==> exists|i: int| p <= i && #[trigger] matches_at(s, i, quoted(key))
            &&& found ==> p <= at && matches_at(s, at, quoted(key)) && forall|i: int|
                p <= i < at ==> !#[trigger] matches_at(s, i, quoted(key))
            &&& !found ==> p <= e <= s.len() && (e == p || s[e - 1] == 34) && forall|i: int|
                e <= i < s.len() ==> s[i] != 34
        }),
    decreases s.len() - p,
{
    lemma_first_byte(s, p, QUOTE);
    match first_byte(s, p, QUOTE) {
        Some(q) => {
            assert forall|i: int| p <= i < q implies !#[trigger] matches_at(s, i, quoted(key)) by {
                lemma_key_is_quoted(s, i, key);
            }
            lemma_key_is_quoted(s, q, key);
            if !is_key_at(s, q, key) {
                law_keys_are_found_in_quotes(s, q + 1, key);
                assert forall|i: int|
                    p <= i && #[trigger] matches_at(s, i, quoted(key)) implies q + 1 <= i by {}
            }
        },
        None => {
            assert forall|i: int| p <= i implies !#[trigger] matches_at(s, i, quoted(key)) by {
                if i < s.len() {
                    lemma_key_is_quoted(s, i, key);
                }
            }
        },
    }
}

/// White space from `p` up to `i`, and none at `i`.
pub open spec fn is_blank_up_to(s: Seq<u8>, p: int, i: int) -> bool {
    &&& p <= i <= s.len()
    &&& forall|j: int| p <= j < i ==> #[trigger] s[j] <= 32
    &&& i < s.len() ==> s[i] > 32
}

/// Skipping white space skips all of it and nothing else.
pub proof fn law_white_space_is_skipped(s: Seq<u8>, p: int, i: int)
    requires
        0 <= p <= s.len(),
    ensures
        after_ws(s, p) == i <==> is_blank_up_to(s, p, i),
    decreases s.len() - p,
{
    if p < s.len() && s[p] <= 32 {
        law_white_space_is_skipped(s, p + 1, i);
        law_white_space_is_skipped(s, p + 1, after_ws(s, p + 1));
    }
}

/// Digits from `p` up to `e`, and none at `e`.
pub open spec fn is_digits_up_to(s: Seq<u8>, p: int, e: int) -> bool {
    &&& p <= e <= s.len()
    &&& forall|j: int| p <= j < e ==> 48 <= #[trigger] s[j] <= 57
    &&& e < s.len() ==> !(48 <= s[e] <= 57)
}

proof fn lemma_digits_up_to(s: Seq<u8>, p: int, e: int)
    requires
        0 <= p <= s.len(),
    ensures
        after_digits(s, p) == e <==> is_digits_up_to(s, p, e),
    decreases s.len() - p,
{
    if p < s.len() && 48 <= s[p] <= 57 {
        lemma_digits_up_to(s, p + 1, e);
        lemma_digits_up_to(s, p + 1, after_digits(s, p + 1));
    }
}

/// The number `n` is written in `s` from `i` on, up to `e`: a minus sign if it
/// is negative, all digits that follow, and if a point follows, all digits
/// behind it; at least one digit in all.
pub open spec fn is_written(s: Seq<u8>, i: int, n: DecimalView, e: int) -> bool {
    let b = if n.negative {
        i + 1
    } else {
        i
    };
    let w = b + n.whole.len();
    &&& 0 <= i < s.len()
    &&& n.negative <==> s[i] == 45
    &&& is_digits_up_to(s, b, w)
    &&& n.whole == s.subrange(b, w)
    &&& if w < s.len() && s[w] == 46 {
        &&& e == w + 1 + n.fraction.len()
        &&& is_digits_up_to(s, w + 1, e)
        &&& n.fraction == s.subrange(w + 1, e)
    } else {
        &&& e == w
        &&& n.fraction.len() == 0
    }
    &&& n.whole.len() + n.fraction.len() > 0
}

/// A number is read if and only if it is what is written behind the white
/// space, and reading ends where it ends.
pub proof fn law_numbers_are_read_as_written(s: Seq<u8>, p: int, i: int, n: DecimalView, e: int)
    requires
        0 <= p,
        is_blank_up_to(s, p, i),
    ensures
        number_at(s, p) == (Some(n), e) <==> is_written(s, i, n, e),
{
    law_white_space_is_skipped(s, p, i);
    if i < s.len() {
        let b = if s[i] == 45 {
            i + 1
        } else {
            i
        };
        let w = after_digits(s, b);
        lemma_digits_up_to(s, b, w);
        lemma_digits_up_to(s, b, b + n.whole.len());
        if w < s.len() && s[w] == 46 {
            lemma_digits_up_to(s, w + 1, after_digits(s, w + 1));
            lemma_digits_up_to(s, w + 1, w + 1 + n.fraction.len());
        }
        if number_at(s, p) == (Some(n), e) {
            assert(n.whole == s.subrange(b, w));
            assert(n.whole.len() == w - b);
            assert(is_written(s, i, n, e));
        }
        if is_written(s, i, n, e) {
            assert(b + n.whole.len() == w);
            if !(w < s.len() && s[w] == 46) {
                assert(n.fraction =~= Seq::<u8>::empty());
            }
            assert(number_at(s, p) == (Some(n), e));
        }
    }
}

/// A truth value is read if and only if its word stands behind the white
/// space.
pub proof fn law_truth_values_are_read_as_written(s: Seq<u8>, p: int, i: int, v: bool, e: int)
    requires
        0 <= p,
        is_blank_up_to(s, p, i),
    ensures
        bool_at(s, p) == (Some(v), e) <==> if v {
            matches_at(s, i, "true".spec_bytes()) && e == i + "true".spec_bytes().len()
        } else {
            matches_at(s, i, "false".spec_bytes()) && e == i + "false".spec_bytes().len()
        },
{
    law_white_space_is_skipped(s, p, i);
    let t = "true".spec_bytes();
    let f = "false".spec_bytes();
    reveal_strlit("true");
    reveal_strlit("false");
    assert("true".is_ascii() && "false".is_ascii());
    if matches_at(s, i, t) && matches_at(s, i, f) {
        assert(s.subrange(i, i + t.len())[0] == s.subrange(i, i + f.len())[0]);
        assert(t[0] == f[0]);
        assert(false);
    }
}

/// A string is what stands between the next two quotes. Where there are no
/// two, it is empty, and nothing is read.
pub proof fn law_strings_stand_between_quotes(s: Seq<u8>, p: int, open: int, close: int)
    requires
        0 <= p <= s.len(),
    ensures
        p <= open < close < s.len() && s[open] == 34 && s[close] == 34 && (forall|j: int|
            p <= j < open ==> s[j] != 34) && (forall|j: int| open < j < close ==> s[j] != 34)
            ==> string_at(s, p) == (s.subrange(open + 1, close), close + 1),
        (forall|i: int, j: int| p <= i < j < s.len() ==> !(s[i] == 34 && s[j] == 34)) ==> string_at(
            s,
            p,
        ) == (Seq::<u8>::empty(), p),
{
    lemma_first_byte(s, p, 34);
    if first_byte(s, p, 34) is Some {
        lemma_first_byte(s, first_byte(s, p, 34)->0 + 1, 34);
    }
}

/// The value of a key begins at `v`: behind the colon at `c`, the first one
/// behind the key, which stands in quotes at `k`, the first place from `p` on
/// where it does.
pub open spec fn is_value_of(s: Seq<u8>, p: int, key: Seq<u8>, k: int, c: int, v: int) -> bool {
    let named = seq![34u8] + key + seq![34u8];
    &&& p <= k
    &&& matches_at(s, k, named)
    &&& forall|i: int| p <= i < k ==> !#[trigger] matches_at(s, i, named)
    &&& k + key.len() + 2 <= c < s.len()
    &&& s[c] == 58
    &&& forall|i: int| k + key.len() + 2 <= i < c ==> #[trigger] s[i] != 58
    &&& is_blank_up_to(s, c + 1, v)
    &&& v < s.len()
}

/// The value of a key is found if and only if it is there, behind the key and
/// its colon.
pub proof fn law_values_stand_behind_their_keys(s: Seq<u8>, p: int, key: Seq<u8>, v: int)
    requires
        0 <= p <= s.len(),
    ensures
        ({
            let (found, a) = after_key(s, p, key);
            found && after_colon(s, a) == (true, v) <==> exists|k: int, c: int| #[trigger]
                is_value_of(s, p, key, k, c, v)
        }),
        ({
            let (found, a) = after_key(s, p, key);
            found ==> 0 <= a <= s.len()
        }),
{
    let named = seq![34u8] + key + seq![34u8];
    assert(named =~= quoted(key));
    law_keys_are_found_in_quotes(s, p, key);
    let (found, a) = after_key(s, p, key);
    let at = a - key.len() - 2;
    if found {
        lemma_first_byte(s, a, 58);
        if first_byte(s, a, 58) is Some {
            let c = first_byte(s, a, 58)->0;
            law_white_space_is_skipped(s, c + 1, after_ws(s, c + 1));
            if after_colon(s, a) == (true, v) {
                assert(is_value_of(s, p, key, at, c, v));
            }
        }
    }
    if exists|k: int, c: int| #[trigger] is_value_of(s, p, key, k, c, v) {
        let (k, c) = choose|k: int, c: int| #[trigger] is_value_of(s, p, key, k, c, v);
        assert(matches_at(s, k, quoted(key)));
        assert(found);
        if at < k {
            assert(!matches_at(s, at, named));
        } else if k < at {
            assert(!matches_at(s, k, quoted(key)));
        }
        lemma_first_byte(s, a, 58);
        assert(first_byte(s, a, 58) == Some(c));
        law_white_space_is_skipped(s, c + 1, v);
    }
}

/// Where there is no colon, or nothing behind it, the text is read to its end.
/// Where there is no number, a sign and a point are all that is read; where
/// there is no truth value, nothing.
pub proof fn law_what_is_not_there_is_passed_over(s: Seq<u8>, p: int, i: int)
    requires
        0 <= p,
        is_blank_up_to(s, p, i),
    ensures
        !after_colon(s, p).0 ==> after_colon(s, p).1 == s.len(),
        bool_at(s, p).0 is None ==> bool_at(s, p).1 == i,
        number_at(s, p).0 is None ==> {
            let b = if i < s.len() && s[i] == 45 {
                i + 1
            } else {
                i
            };
            number_at(s, p).1 == if b < s.len() && s[b] == 46 {
                b + 1
            } else {
                b
            }
        },
{
    law_white_space_is_skipped(s, p, i);
    lemma_first_byte(s, p, 58);
    if first_byte(s, p, 58) is Some {
        let c = first_byte(s, p, 58)->0;
        law_white_space_is_skipped(s, c + 1, after_ws(s, c + 1));
    }
    if i < s.len() {
        let b = if s[i] == 45 {
            i + 1
        } else {
            i
        };
        lemma_digits_up_to(s, b, after_digits(s, b));
        let w = after_digits(s, b);
        if w < s.len() {
            lemma_digits_up_to(s, w + 1, after_digits(s, w + 1));
        }
    }
}

} // verus!
