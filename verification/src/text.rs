//! Character-level text helpers shared by the parsers of this crate.
use vstd::prelude::*;

verus! {

/// Unicode `White_Space`, the property that `char::is_whitespace` tests
/// and that `str::trim` and its relatives strip.
pub open spec fn is_ws(c: char) -> bool {
    let u = c as u32;
    ||| 0x09 <= u <= 0x0D
    ||| u == 0x20
    ||| u == 0x85
    ||| u == 0xA0
    ||| u == 0x1680
    ||| 0x2000 <= u <= 0x200A
    ||| u == 0x2028
    ||| u == 0x2029
    ||| u == 0x202F
    ||| u == 0x205F
    ||| u == 0x3000
}

/// The view of an optional string.
pub open spec fn opt_view(o: Option<String>) -> Option<Seq<char>> {
    match o {
        Some(s) => Some(s@),
        None => None,
    }
}

/// Whether `pat` occurs in `t` starting at index `k`.
pub open spec fn matches_at(t: Seq<char>, k: int, pat: Seq<char>) -> bool {
    &&& 0 <= k
    &&& k + pat.len() <= t.len()
    &&& t.subrange(k, k + pat.len()) == pat
}

/// Whether `t` ends with `suffix`.
pub open spec fn has_suffix(t: Seq<char>, suffix: Seq<char>) -> bool {
    matches_at(t, t.len() - suffix.len(), suffix)
}

/// Whether `t` starts with `prefix`.
pub open spec fn has_prefix(t: Seq<char>, prefix: Seq<char>) -> bool {
    matches_at(t, 0, prefix)
}

/// Whether `pat` occurs anywhere in `t`.
pub open spec fn contains_seq(t: Seq<char>, pat: Seq<char>) -> bool {
    exists|k: int| matches_at(t, k, pat)
}

/// The end of `t[lo..e]` once trailing whitespace is dropped.
pub open spec fn trim_end_index(t: Seq<char>, lo: int, e: int) -> int
    decreases e - lo,
{
    if lo < e && is_ws(t[e - 1]) {
        trim_end_index(t, lo, e - 1)
    } else {
        e
    }
}

/// The start of `t[s..e]` once leading whitespace is dropped.
pub open spec fn trim_start_index(t: Seq<char>, s: int, e: int) -> int
    decreases e - s,
{
    if s < e && is_ws(t[s]) {
        trim_start_index(t, s + 1, e)
    } else {
        s
    }
}

/// ASCII lower case of one character, as `char::to_ascii_lowercase`.
pub open spec fn ascii_lower(c: char) -> char {
    if 'A' <= c && c <= 'Z' {
        ((c as u32) + 32) as char
    } else {
        c
    }
}

/// ASCII lower case of a text, as `str::to_ascii_lowercase`.
pub open spec fn ascii_lower_seq(t: Seq<char>) -> Seq<char> {
    t.map_values(|c: char| ascii_lower(c))
}

/// Names what `char::is_alphanumeric` answers: the Unicode `Alphabetic`
/// or `Numeric` property of `c`.
pub uninterp spec fn char_is_alphanumeric(c: char) -> bool;

/// The `char::is_alphanumeric` answer for every character of `t`.
pub open spec fn alphanumeric_flags(t: Seq<char>) -> Seq<bool> {
    Seq::new(t.len(), |i: int| char_is_alphanumeric(t[i]))
}

/// An ASCII letter or digit: the ASCII characters that have the Unicode
/// `Alphabetic` or `Numeric` property.
pub open spec fn is_ascii_alnum(c: char) -> bool {
    ('A' <= c && c <= 'Z') || ('a' <= c && c <= 'z') || ('0' <= c && c <= '9')
}

/// Calls `char::is_alphanumeric`. Its answer is named by
/// `char_is_alphanumeric`. Of ASCII characters it claims what the
/// documentation's definition (the Unicode `Alphabetic` or `Numeric`
/// property) gives: letters and digits are alphanumeric, and no other ASCII
/// character (space, `-`, punctuation, controls) is. Of other characters
/// nothing more is claimed.
#[verifier::external_body]
pub(crate) fn is_alphanumeric(c: char) -> (r: bool)
    ensures
        r == char_is_alphanumeric(c),
        (c as u32) < 0x80 ==> (r <==> is_ascii_alnum(c)),
{
    c.is_alphanumeric()
}

/// Calls `str::chars` and collects the characters; claims that they are
/// the characters of `s`, in order.
#[verifier::external_body]
pub(crate) fn chars_of(s: &str) -> (r: Vec<char>)
    ensures
        r@ == s@,
{
    s.chars().collect()
}

/// Calls `String`'s `FromIterator<&char>` on the characters; claims that the
/// string holds exactly those characters, in order.
#[verifier::external_body]
pub(crate) fn string_of(cs: &Vec<char>) -> (r: String)
    ensures
        r@ == cs@,
{
    cs.iter().collect()
}

/// `char::is_whitespace`: membership in Unicode `White_Space`.
pub fn is_whitespace(c: char) -> (r: bool)
    ensures
        r == is_ws(c),
{
    let u = c as u32;
    (0x09 <= u && u <= 0x0D) || u == 0x20 || u == 0x85 || u == 0xA0 || u == 0x1680 || (0x2000
        <= u && u <= 0x200A) || u == 0x2028 || u == 0x2029 || u == 0x202F || u == 0x205F || u
        == 0x3000
}

/// `char::to_ascii_lowercase`.
pub fn to_ascii_lower(c: char) -> (r: char)
    ensures
        r == ascii_lower(c),
{
    if 'A' <= c && c <= 'Z' {
        let u = (c as u32) + 32;
        assert(0x61 <= u <= 0x7A);
        char_from_ascii(u)
    } else {
        c
    }
}

/// The character with an ASCII code point.
fn char_from_ascii(u: u32) -> (r: char)
    requires
        u < 128,
    ensures
        r == u as char,
{
    let b = u as u8;
    b as char
}

/// The characters `t[lo..hi]` as a new vector.
pub fn subvec(t: &Vec<char>, lo: usize, hi: usize) -> (r: Vec<char>)
    requires
        lo <= hi <= t.len(),
    ensures
        r@ == t@.subrange(lo as int, hi as int),
{
    let mut r: Vec<char> = Vec::new();
    let mut i = lo;
    while i < hi
        invariant
            lo <= i <= hi <= t.len(),
            r@ == t@.subrange(lo as int, i as int),
        decreases hi - i,
    {
        r.push(t[i]);
        i += 1;
        assert(r@ =~= t@.subrange(lo as int, i as int));
    }
    r
}

/// Whether `pat` occurs in `t` at index `k`.
pub fn matches_at_exec(t: &Vec<char>, k: usize, pat: &Vec<char>) -> (r: bool)
    ensures
        r == matches_at(t@, k as int, pat@),
{
    if k > t.len() || pat.len() > t.len() - k {
        return false;
    }
    let mut i: usize = 0;
    while i < pat.len()
        invariant
            k + pat.len() <= t.len(),
            i <= pat.len(),
            forall|j: int| 0 <= j < i ==> t@[k + j] == pat@[j],
        decreases pat.len() - i,
    {
        if t[k + i] != pat[i] {
            assert(t@.subrange(k as int, k + pat.len())[i as int] != pat@[i as int]);
            return false;
        }
        i += 1;
    }
    assert(t@.subrange(k as int, k + pat.len()) =~= pat@);
    true
}

/// Whether `t` ends with `suffix`.
pub fn ends_with(t: &Vec<char>, suffix: &Vec<char>) -> (r: bool)
    ensures
        r == has_suffix(t@, suffix@),
{
    if suffix.len() > t.len() {
        return false;
    }
    matches_at_exec(t, t.len() - suffix.len(), suffix)
}

/// Whether `t` starts with `prefix`.
pub fn starts_with(t: &Vec<char>, prefix: &Vec<char>) -> (r: bool)
    ensures
        r == has_prefix(t@, prefix@),
{
    matches_at_exec(t, 0, prefix)
}

/// Whether `pat` occurs anywhere in `t`.
pub fn contains(t: &Vec<char>, pat: &Vec<char>) -> (r: bool)
    ensures
        r == contains_seq(t@, pat@),
{
    let mut k: usize = 0;
    while k < t.len()
        invariant
            k <= t.len(),
            forall|j: int| 0 <= j < k ==> !matches_at(t@, j, pat@),
        decreases t.len() - k,
    {
        if matches_at_exec(t, k, pat) {
            return true;
        }
        k += 1;
    }
    if matches_at_exec(t, t.len(), pat) {
        return true;
    }
    assert forall|j: int| !matches_at(t@, j, pat@) by {
        if 0 <= j < t.len() {
        } else if j == t.len() {
        } else {
        }
    }
    false
}

/// `str::to_ascii_lowercase` on characters.
pub fn ascii_lowercase(t: &Vec<char>) -> (r: Vec<char>)
    ensures
        r@ == ascii_lower_seq(t@),
{
    let mut r: Vec<char> = Vec::new();
    let mut i: usize = 0;
    while i < t.len()
        invariant
            i <= t.len(),
            r@ == ascii_lower_seq(t@.subrange(0, i as int)),
        decreases t.len() - i,
    {
        let c = to_ascii_lower(t[i]);
        r.push(c);
        i += 1;
        assert(r@ =~= ascii_lower_seq(t@.subrange(0, i as int)));
    }
    assert(t@.subrange(0, t.len() as int) =~= t@);
    r
}

/// The end of `t[lo..e]` once trailing whitespace is dropped.
pub fn trim_end_at(t: &Vec<char>, lo: usize, e: usize) -> (r: usize)
    requires
        lo <= e <= t.len(),
    ensures
        r == trim_end_index(t@, lo as int, e as int),
        lo <= r <= e,
{
    let mut i = e;
    while i > lo && is_whitespace(t[i - 1])
        invariant
            lo <= i <= e <= t.len(),
            trim_end_index(t@, lo as int, i as int) == trim_end_index(t@, lo as int, e as int),
        decreases i,
    {
        i -= 1;
    }
    i
}

/// The start of `t[s..e]` once leading whitespace is dropped.
pub fn trim_start_at(t: &Vec<char>, s: usize, e: usize) -> (r: usize)
    requires
        s <= e <= t.len(),
    ensures
        r == trim_start_index(t@, s as int, e as int),
        s <= r <= e,
{
    let mut i = s;
    while i < e && is_whitespace(t[i])
        invariant
            s <= i <= e <= t.len(),
            trim_start_index(t@, i as int, e as int) == trim_start_index(t@, s as int, e as int),
        decreases e - i,
    {
        i += 1;
    }
    i
}

/// The characters of a string.
pub fn string_chars(s: &String) -> (r: Vec<char>)
    ensures
        r@ == s@,
{
    chars_of(s.as_str())
}

} // verus!
