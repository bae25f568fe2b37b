//! Text that arrives as bytes.

use vstd::prelude::*;
use vstd::slice::*;
use vstd::utf8::*;

verus! {

/// Text of a byte string, where the bytes are well-formed UTF-8.
///
/// Trusted: calls `std::str::from_utf8` and copies the borrowed text into a
/// `String`. The contract says what std documents of it: it succeeds exactly on
/// well-formed UTF-8, and the text then consists of the characters that the
/// bytes encode.
#[verifier::external_body]
pub(crate) fn string_from_utf8(bytes: &[u8]) -> (text: Option<String>)
    ensures
        text is Some <==> valid_utf8(bytes@),
        text matches Some(s) ==> s@ == decode_utf8(bytes@),
{
    match std::str::from_utf8(bytes) {
        Ok(s) => Some(String::from(s)),
        Err(_) => None,
    }
}

/// ASCII white space: space, tab, line feed, vertical tab, form feed,
/// carriage return.
pub open spec fn is_space(b: u8) -> bool {
    b == 0x20 || (0x09 <= b && b <= 0x0d)
}

/// Whether `needle` stands in `hay` at index `i`.
pub open spec fn occurs_at(hay: Seq<u8>, needle: Seq<u8>, i: int) -> bool {
    0 <= i && i + needle.len() <= hay.len() && hay.subrange(i, i + needle.len()) == needle
}

/// Index of the first place at or after `from` where `needle` stands in
/// `hay`; the length of `hay` if there is none.
pub open spec fn find_from(hay: Seq<u8>, needle: Seq<u8>, from: nat) -> nat
    decreases hay.len() - from,
{
    if from >= hay.len() || from + needle.len() > hay.len() {
        hay.len()
    } else if occurs_at(hay, needle, from as int) {
        from
    } else {
        find_from(hay, needle, from + 1)
    }
}

/// Whether `needle` stands somewhere in `hay`.
pub open spec fn contains_bytes(hay: Seq<u8>, needle: Seq<u8>) -> bool {
    exists|i: int| occurs_at(hay, needle, i)
}

/// Index of the first byte at or after `from` that is not white space.
pub open spec fn skip_spaces(s: Seq<u8>, from: nat) -> nat
    decreases s.len() - from,
{
    if from < s.len() && is_space(s[from as int]) {
        skip_spaces(s, from + 1)
    } else {
        from
    }
}

/// Index of the first byte at or after `from` that is white space.
pub open spec fn skip_word(s: Seq<u8>, from: nat) -> nat
    decreases s.len() - from,
{
    if from < s.len() && !is_space(s[from as int]) {
        skip_word(s, from + 1)
    } else {
        from
    }
}

/// Where the first `end` bytes of `s` end once white space is taken off their
/// tail.
pub open spec fn trim_end(s: Seq<u8>, end: nat) -> nat
    decreases end,
{
    if end > 0 && is_space(s[end - 1]) {
        trim_end(s, (end - 1) as nat)
    } else {
        end
    }
}

/// `s` without the white space at its two ends.
pub open spec fn trim(s: Seq<u8>) -> Seq<u8> {
    let start = skip_spaces(s, 0);
    let end = trim_end(s, s.len());
    if start < end {
        s.subrange(start as int, end as int)
    } else {
        Seq::empty()
    }
}

/// `find_from` answers within `from ..= hay.len()`, with a place where the
/// needle stands unless it answers `hay.len()`, and no such place lies between
/// `from` and the answer.
pub proof fn lemma_find_from(hay: Seq<u8>, needle: Seq<u8>, from: nat)
    requires
        from <= hay.len(),
    ensures
        from <= find_from(hay, needle, from) <= hay.len(),
        find_from(hay, needle, from) < hay.len() ==> occurs_at(
            hay,
            needle,
            find_from(hay, needle, from) as int,
        ),
        forall|i: int| from <= i < find_from(hay, needle, from) ==> !occurs_at(hay, needle, i),
        needle.len() > 0 ==> forall|i: int|
            from <= i && find_from(hay, needle, from) == hay.len() ==> !occurs_at(hay, needle, i),
    decreases hay.len() - from,
{
    if from >= hay.len() || from + needle.len() > hay.len() {
    } else if occurs_at(hay, needle, from as int) {
    } else {
        lemma_find_from(hay, needle, from + 1);
    }
}

/// A needle stands somewhere in `hay` exactly if the search from the start
/// finds a place for it.
pub proof fn lemma_contains_bytes(hay: Seq<u8>, needle: Seq<u8>)
    requires
        needle.len() > 0,
    ensures
        contains_bytes(hay, needle) <==> find_from(hay, needle, 0) < hay.len(),
{
    lemma_find_from(hay, needle, 0);
    if find_from(hay, needle, 0) < hay.len() {
        assert(occurs_at(hay, needle, find_from(hay, needle, 0) as int));
    }
}

/// The scanners stay within the string.
pub proof fn lemma_scan_bounds(s: Seq<u8>, from: nat)
    requires
        from <= s.len(),
    ensures
        from <= skip_spaces(s, from) <= s.len(),
        from <= skip_word(s, from) <= s.len(),
        trim_end(s, from) <= from,
{
    lemma_scan_bounds_spaces(s, from);
    lemma_scan_bounds_word(s, from);
    lemma_trim_end_bound(s, from);
}

proof fn lemma_scan_bounds_spaces(s: Seq<u8>, from: nat)
    requires
        from <= s.len(),
    ensures
        from <= skip_spaces(s, from) <= s.len(),
    decreases s.len() - from,
{
    if from < s.len() && is_space(s[from as int]) {
        lemma_scan_bounds_spaces(s, from + 1);
    }
}

proof fn lemma_scan_bounds_word(s: Seq<u8>, from: nat)
    requires
        from <= s.len(),
    ensures
        from <= skip_word(s, from) <= s.len(),
    decreases s.len() - from,
{
    if from < s.len() && !is_space(s[from as int]) {
        lemma_scan_bounds_word(s, from + 1);
    }
}

proof fn lemma_trim_end_bound(s: Seq<u8>, end: nat)
    ensures
        trim_end(s, end) <= end,
    decreases end,
{
    if end > 0 && is_space(s[end - 1]) {
        lemma_trim_end_bound(s, (end - 1) as nat);
    }
}

/// Whether a byte is ASCII white space.
pub fn byte_is_space(b: u8) -> (r: bool)
    ensures
        r == is_space(b),
{
    b == 0x20 || (0x09 <= b && b <= 0x0d)
}

/// Whether two byte strings are the same.
pub fn bytes_equal(a: &[u8], b: &[u8]) -> (r: bool)
    ensures
        r == (a@ == b@),
{
    if a.len() != b.len() {
        return false;
    }
    let mut i: usize = 0;
    while i < a.len()
        invariant
            i <= a@.len(),
            a@.len() == b@.len(),
            a@.take(i as int) == b@.take(i as int),
        decreases a@.len() - i,
    {
        if a[i] != b[i] {
            assert(a@[i as int] != b@[i as int]);
            return false;
        }
        i += 1;
        assert(a@.take(i as int) =~= a@.take(i - 1).push(a@[i - 1]));
        assert(b@.take(i as int) =~= b@.take(i - 1).push(b@[i - 1]));
    }
    assert(a@ =~= a@.take(i as int));
    assert(b@ =~= b@.take(i as int));
    true
}

/// Whether `needle` stands in `hay` at index `at`.
pub fn bytes_at(hay: &[u8], needle: &[u8], at: usize) -> (r: bool)
    requires
        at + needle@.len() <= hay@.len(),
    ensures
        r == occurs_at(hay@, needle@, at as int),
{
    let size = hay.len();
    let part = slice_subrange(hay, at, at + needle.len());
    bytes_equal(part, needle)
}

/// Index of the first place at or after `from` where `needle` stands in
/// `hay`; the length of `hay` if there is none.
pub fn find_bytes(hay: &[u8], needle: &[u8], from: usize) -> (at: usize)
    requires
        from <= hay@.len(),
    ensures
        at == find_from(hay@, needle@, from as nat),
        from <= at <= hay@.len(),
{
    proof {
        lemma_find_from(hay@, needle@, from as nat);
    }
    let mut i: usize = from;
    while i < hay.len() && needle.len() <= hay.len() - i
        invariant
            from <= i <= hay@.len(),
            find_from(hay@, needle@, from as nat) == find_from(hay@, needle@, i as nat),
        decreases hay@.len() - i,
    {
        if bytes_at(hay, needle, i) {
            return i;
        }
        i += 1;
    }
    hay.len()
}

/// Index of the first byte at or after `from` that is not white space.
pub fn skip_spaces_in(s: &[u8], from: usize) -> (at: usize)
    requires
        from <= s@.len(),
    ensures
        at == skip_spaces(s@, from as nat),
        from <= at <= s@.len(),
{
    let mut i: usize = from;
    while i < s.len() && byte_is_space(s[i])
        invariant
            from <= i <= s@.len(),
            skip_spaces(s@, from as nat) == skip_spaces(s@, i as nat),
        decreases s@.len() - i,
    {
        i += 1;
    }
    i
}

/// Index of the first byte at or after `from` that is white space.
pub fn skip_word_in(s: &[u8], from: usize) -> (at: usize)
    requires
        from <= s@.len(),
    ensures
        at == skip_word(s@, from as nat),
        from <= at <= s@.len(),
{
    let mut i: usize = from;
    while i < s.len() && !byte_is_space(s[i])
        invariant
            from <= i <= s@.len(),
            skip_word(s@, from as nat) == skip_word(s@, i as nat),
        decreases s@.len() - i,
    {
        i += 1;
    }
    i
}

/// `s` without the white space at its two ends.
pub fn trim_bytes(s: &[u8]) -> (t: &[u8])
    ensures
        t@ == trim(s@),
{
    let start = skip_spaces_in(s, 0);
    let mut end: usize = s.len();
    while end > 0 && byte_is_space(s[end - 1])
        invariant
            end <= s@.len(),
            trim_end(s@, s@.len()) == trim_end(s@, end as nat),
        decreases end,
    {
        end -= 1;
    }
    if start < end {
        slice_subrange(s, start, end)
    } else {
        slice_subrange(s, 0, 0)
    }
}

} // verus!
