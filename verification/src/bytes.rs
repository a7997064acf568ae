//! Reading numbers out of bytes, and searching in bytes.
use vstd::prelude::*;

verus! {

/// The little-endian `u32` that starts at `i`.
pub open spec fn u32_at(s: Seq<u8>, i: int) -> u32 {
    (s[i] + 0x100 * s[i + 1] + 0x1_0000 * s[i + 2] + 0x100_0000 * s[i + 3]) as u32
}

/// The little-endian `u64` that starts at `i`.
pub open spec fn u64_at(s: Seq<u8>, i: int) -> u64 {
    (u32_at(s, i) + 0x1_0000_0000 * u32_at(s, i + 4)) as u64
}

/// The little-endian two's complement `i16` that starts at `i`.
pub open spec fn i16_at(s: Seq<u8>, i: int) -> i16 {
    let bits = s[i] + 0x100 * s[i + 1];
    if bits < 0x8000 {
        bits as i16
    } else {
        (bits - 0x1_0000) as i16
    }
}

pub fn read_u32(s: &[u8], i: usize) -> (n: u32)
    requires
        i + 4 <= s.len(),
    ensures
        n == u32_at(s@, i as int),
        n == s@[i as int] + 256 * s@[i + 1] + 65536 * s@[i + 2] + 16777216 * s@[i + 3],
{
    s[i] as u32 + 0x100 * s[i + 1] as u32 + 0x1_0000 * s[i + 2] as u32 + 0x100_0000 * s[i + 3] as u32
}

pub fn read_u64(s: &[u8], i: usize) -> (n: u64)
    requires
        i + 8 <= s.len(),
    ensures
        n == u64_at(s@, i as int),
{
    read_u32(s, i) as u64 + 0x1_0000_0000 * read_u32(s, i + 4) as u64
}

pub fn read_i16(s: &[u8], i: usize) -> (n: i16)
    requires
        i + 2 <= s.len(),
    ensures
        n == i16_at(s@, i as int),
        (n - (s@[i as int] + 256 * s@[i + 1])) % 65536 == 0,
{
    let bits: i32 = s[i] as i32 + 0x100 * s[i + 1] as i32;
    if bits < 0x8000 {
        bits as i16
    } else {
        (bits - 0x1_0000) as i16
    }
}

/// `pat` stands in `s` at `i`.
pub open spec fn matches_at(s: Seq<u8>, i: int, pat: Seq<u8>) -> bool {
    0 <= i && i + pat.len() <= s.len() && s.subrange(i, i + pat.len()) == pat
}

/// The first place at or after `from` where `s` holds `b`.
pub open spec fn first_byte(s: Seq<u8>, from: int, b: u8) -> Option<int>
    decreases s.len() - from,
{
    if from >= s.len() {
        None
    } else if s[from] == b {
        Some(from)
    } else {
        first_byte(s, from + 1, b)
    }
}

/// The first place at or after `from` where `pat` stands in `s`.
pub open spec fn first_match(s: Seq<u8>, from: int, pat: Seq<u8>) -> Option<int>
    decreases s.len() + 1 - from,
{
    if from + pat.len() > s.len() {
        None
    } else if matches_at(s, from, pat) {
        Some(from)
    } else {
        first_match(s, from + 1, pat)
    }
}

/// Finds the first `b` at or after `from`.
pub fn find_byte(s: &[u8], from: usize, b: u8) -> (at: Option<usize>)
    requires
        from <= s.len(),
    ensures
        at matches Some(i) ==> first_byte(s@, from as int, b) == Some(i as int) && from <= i
            < s.len() && s@[i as int] == b,
        at is None ==> first_byte(s@, from as int, b) is None,
{
    let mut i: usize = from;
    while i < s.len()
        invariant
            from <= i <= s.len(),
            first_byte(s@, from as int, b) == first_byte(s@, i as int, b),
        decreases s.len() - i,
    {
        if s[i] == b {
            return Some(i);
        }
        i = i + 1;
    }
    None
}

/// Tells whether `pat` stands in `s` at `i`.
pub fn is_match(s: &[u8], i: usize, pat: &[u8]) -> (yes: bool)
    requires
        i <= s.len(),
    ensures
        yes == matches_at(s@, i as int, pat@),
{
    if s.len() - i < pat.len() {
        return false;
    }
    let mut j: usize = 0;
    while j < pat.len()
        invariant
            j <= pat.len(),
            i + pat.len() <= s.len(),
            forall|a: int| 0 <= a < j ==> s@[i + a] == pat@[a],
        decreases pat.len() - j,
    {
        if s[i + j] != pat[j] {
            assert(s@.subrange(i as int, i + pat@.len())[j as int] != pat@[j as int]);
            return false;
        }
        j = j + 1;
    }
    assert(s@.subrange(i as int, i + pat@.len()) =~= pat@);
    true
}

/// Finds the first place at or after `from` where `pat` stands.
pub fn find_match(s: &[u8], from: usize, pat: &[u8]) -> (at: Option<usize>)
    requires
        from <= s.len(),
    ensures
        at matches Some(i) ==> first_match(s@, from as int, pat@) == Some(i as int) && from <= i
            && matches_at(s@, i as int, pat@),
        at is None ==> first_match(s@, from as int, pat@) is None,
{
    let mut i: usize = from;
    while s.len() - i >= pat.len()
        invariant
            from <= i <= s.len(),
            first_match(s@, from as int, pat@) == first_match(s@, i as int, pat@),
        decreases s.len() - i,
    {
        if is_match(s, i, pat) {
            return Some(i);
        }
        // An empty pattern would have matched, so `i` is not at the end.
        assert(i < s.len()) by {
            assert(pat@.len() == 0 ==> s@.subrange(i as int, i as int) =~= pat@);
        }
        i = i + 1;
    }
    None
}

/// The first place where `s` holds `b` is one where it does, and there is none
/// before it.
pub proof fn lemma_first_byte(s: Seq<u8>, from: int, b: u8)
    ensures
        match first_byte(s, from, b) {
            Some(i) => from <= i < s.len() && s[i] == b && forall|j: int|
                from <= j < i ==> s[j] != b,
            None => forall|j: int| from <= j < s.len() ==> s[j] != b,
        },
    decreases s.len() - from,
{
    if from < s.len() && s[from] != b {
        lemma_first_byte(s, from + 1, b);
    }
}

/// The first place where `pat` stands is one where it does, and there is none
/// before it.
pub proof fn lemma_first_match(s: Seq<u8>, from: int, pat: Seq<u8>)
    requires
        0 <= from,
    ensures
        match first_match(s, from, pat) {
            Some(i) => from <= i && matches_at(s, i, pat) && forall|j: int|
                from <= j < i ==> !matches_at(s, j, pat),
            None => forall|j: int| from <= j ==> !matches_at(s, j, pat),
        },
    decreases s.len() + 1 - from,
{
    if from + pat.len() <= s.len() && !matches_at(s, from, pat) {
        lemma_first_match(s, from + 1, pat);
    }
}

/// Numbers are written from their lowest byte to their highest; the 16-bit
/// ones are negative from half their range on.
pub proof fn law_numbers_are_little_endian(s: Seq<u8>, i: int)
    ensures
        u32_at(s, i) == s[i] + 256 * s[i + 1] + 65536 * s[i + 2] + 16777216 * s[i + 3],
        u64_at(s, i) == s[i] + 256 * s[i + 1] + 65536 * s[i + 2] + 16777216 * s[i + 3]
            + 4294967296 * (s[i + 4] + 256 * s[i + 5] + 65536 * s[i + 6] + 16777216 * s[i + 7]),
        (i16_at(s, i) - (s[i] + 256 * s[i + 1])) % 65536 == 0,
{
}

/// A pattern stands where each of its bytes does.
pub proof fn law_matches_byte_by_byte(s: Seq<u8>, i: int, pat: Seq<u8>)
    ensures
        matches_at(s, i, pat) <==> 0 <= i && i + pat.len() <= s.len() && forall|j: int|
            0 <= j < pat.len() ==> #[trigger] s[i + j] == pat[j],
{
    if 0 <= i && i + pat.len() <= s.len() {
        let part = s.subrange(i, i + pat.len());
        if part == pat {
            assert forall|j: int| 0 <= j < pat.len() implies #[trigger] s[i + j] == pat[j] by {
                assert(part[j] == s[i + j]);
            }
        }
        if forall|j: int| 0 <= j < pat.len() ==> #[trigger] s[i + j] == pat[j] {
            assert forall|j: int| 0 <= j < pat.len() implies part[j] == pat[j] by {
                assert(s[i + j] == pat[j]);
            }
            assert(part =~= pat);
        }
    }
}

/// The first byte of a kind is where one stands and none before it, and none
/// is found if and only if there is none.
pub proof fn law_first_byte_is_the_first(s: Seq<u8>, from: int, b: u8, i: int)
    requires
        0 <= from,
    ensures
        first_byte(s, from, b) == Some(i) <==> from <= i < s.len() && s[i] == b && forall|j: int|
            from <= j < i ==> s[j] != b,
        first_byte(s, from, b) is None <==> forall|j: int| from <= j < s.len() ==> s[j] != b,
{
    lemma_first_byte(s, from, b);
}

/// The first match of a pattern is where it stands and not before, and none is
/// found if and only if it stands nowhere.
pub proof fn law_first_match_is_the_first(s: Seq<u8>, from: int, pat: Seq<u8>, i: int)
    requires
        0 <= from,
    ensures
        first_match(s, from, pat) == Some(i) <==> from <= i && matches_at(s, i, pat) && forall|
            j: int,
        |
            from <= j < i ==> !matches_at(s, j, pat),
        first_match(s, from, pat) is None <==> forall|j: int| from <= j ==> !matches_at(s, j, pat),
{
    lemma_first_match(s, from, pat);
}

} // verus!
