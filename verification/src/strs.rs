//! Character-level helpers and the std string conversions the parsers rely on.
use vstd::prelude::*;

verus! {

/// ASCII lower-casing of one character; every other character is unchanged.
pub open spec fn ascii_lower(c: char) -> char {
    if 'A' <= c && c <= 'Z' {
        ((c as u32) + 32) as char
    } else {
        c
    }
}

/// ASCII upper-casing of one character; every other character is unchanged.
pub open spec fn ascii_upper(c: char) -> char {
    if 'a' <= c && c <= 'z' {
        ((c as u32) - 32) as char
    } else {
        c
    }
}

pub open spec fn all_ascii(s: Seq<char>) -> bool {
    forall|i: int| 0 <= i < s.len() ==> (s[i] as u32) < 128
}

/// No UTF-16 code unit in `u` is a surrogate.
pub open spec fn no_surrogates(u: Seq<u16>) -> bool {
    forall|i: int| 0 <= i < u.len() ==> !(0xD800 <= u[i] && u[i] <= 0xDFFF)
}

/// Code units that are not surrogates, each taken as the character of that code point.
pub open spec fn bmp_chars(u: Seq<u16>) -> Seq<char> {
    u.map_values(|x: u16| x as char)
}

/// What `str::to_lowercase` returns for a string.
pub uninterp spec fn lowercase(s: Seq<char>) -> Seq<char>;

/// What `str::to_uppercase` returns for a string.
pub uninterp spec fn uppercase(s: Seq<char>) -> Seq<char>;

/// A leading (high) surrogate code unit.
pub open spec fn is_high_surrogate(x: u16) -> bool {
    0xD800 <= x && x <= 0xDBFF
}

/// A trailing (low) surrogate code unit.
pub open spec fn is_low_surrogate(x: u16) -> bool {
    0xDC00 <= x && x <= 0xDFFF
}

/// The character a surrogate pair encodes.
pub open spec fn pair_char(hi: u16, lo: u16) -> char {
    (0x10000 + (hi - 0xD800) * 0x400 + (lo - 0xDC00)) as char
}

/// UTF-16 decoding with every unpaired surrogate replaced by U+FFFD: a
/// code unit that is no surrogate is its own character, a leading
/// surrogate followed by a trailing one is the pair's character, and any
/// other surrogate (the unit after it is decoded on its own) is U+FFFD.
#[verifier::opaque]
pub open spec fn utf16_lossy(u: Seq<u16>) -> Seq<char>
    decreases u.len(),
{
    if u.len() == 0 {
        Seq::empty()
    } else if u.len() >= 2 && is_high_surrogate(u[0]) && is_low_surrogate(u[1]) {
        seq![pair_char(u[0], u[1])] + utf16_lossy(u.skip(2))
    } else if is_high_surrogate(u[0]) || is_low_surrogate(u[0]) {
        seq!['\u{FFFD}'] + utf16_lossy(u.skip(1))
    } else {
        seq![u[0] as char] + utf16_lossy(u.skip(1))
    }
}

/// Strict UTF-16 decoding: as `utf16_lossy`, but `None` when there is an
/// unpaired surrogate.
#[verifier::opaque]
pub open spec fn utf16_strict(u: Seq<u16>) -> Option<Seq<char>>
    decreases u.len(),
{
    if u.len() == 0 {
        Some(Seq::empty())
    } else if u.len() >= 2 && is_high_surrogate(u[0]) && is_low_surrogate(u[1]) {
        match utf16_strict(u.skip(2)) {
            Some(t) => Some(seq![pair_char(u[0], u[1])] + t),
            None => None,
        }
    } else if is_high_surrogate(u[0]) || is_low_surrogate(u[0]) {
        None
    } else {
        match utf16_strict(u.skip(1)) {
            Some(t) => Some(seq![u[0] as char] + t),
            None => None,
        }
    }
}

/// Code units free of surrogates decode one character per unit, both ways.
pub proof fn lemma_utf16_without_surrogates(u: Seq<u16>)
    requires
        no_surrogates(u),
    ensures
        utf16_lossy(u) == bmp_chars(u),
        utf16_strict(u) == Some(bmp_chars(u)),
    decreases u.len(),
{
    reveal(utf16_lossy);
    reveal(utf16_strict);
    if u.len() > 0 {
        let t = u.skip(1);
        assert(!(0xD800 <= u[0] && u[0] <= 0xDFFF));
        assert forall|i: int| 0 <= i < t.len() implies !(0xD800 <= t[i] && t[i] <= 0xDFFF) by {
            assert(t[i] == u[i + 1]);
        }
        lemma_utf16_without_surrogates(t);
        assert(bmp_chars(u) =~= seq![u[0] as char] + bmp_chars(t));
    } else {
        assert(bmp_chars(u) =~= Seq::<char>::empty());
    }
}

/// `str::to_lowercase`: Unicode lower-casing. Claimed: the result is `lowercase`
/// of the input, and for pure ASCII input each letter A-Z becomes a-z and all
/// other characters are kept. What it does to other characters is left unsaid.
#[verifier::external_body]
pub(crate) fn to_lower(s: &str) -> (r: String)
    ensures
        r@ == lowercase(s@),
        all_ascii(s@) ==> r@ == s@.map_values(|c: char| ascii_lower(c)),
{
    s.to_lowercase()
}

/// `str::to_uppercase`: Unicode upper-casing. Claimed: the result is `uppercase`
/// of the input, and for pure ASCII input each letter a-z becomes A-Z and all
/// other characters are kept. What it does to other characters is left unsaid.
#[verifier::external_body]
pub(crate) fn to_upper(s: &str) -> (r: String)
    ensures
        r@ == uppercase(s@),
        all_ascii(s@) ==> r@ == s@.map_values(|c: char| ascii_upper(c)),
{
    s.to_uppercase()
}

/// `String::from_utf16_lossy`: decodes UTF-16, replacing unpaired surrogates
/// with U+FFFD. Claimed: the result is the decoding `utf16_lossy` states.
#[verifier::external_body]
pub(crate) fn from_utf16_lossy(u: &[u16]) -> (r: String)
    ensures
        r@ == utf16_lossy(u@),
{
    String::from_utf16_lossy(u)
}

/// `String::from_utf16`: strict UTF-16 decoding, failing on an unpaired
/// surrogate. Claimed: the result is the decoding `utf16_strict` states
/// (`None` for its error).
#[verifier::external_body]
pub(crate) fn from_utf16(u: &[u16]) -> (r: Option<String>)
    ensures
        r.is_some() == utf16_strict(u@).is_some(),
        r.is_some() ==> utf16_strict(u@) == Some(r.unwrap()@),
{
    String::from_utf16(u).ok()
}

/// `String: FromIterator<char>`: collects characters into a string, in order.
#[verifier::external_body]
pub(crate) fn string_from_chars(v: &Vec<char>) -> (r: String)
    ensures
        r@ == v@,
{
    v.iter().collect()
}

/// The characters of a string slice, in order.
pub fn chars_of(s: &str) -> (r: Vec<char>)
    ensures
        r@ == s@,
{
    let n = s.unicode_len();
    let mut out: Vec<char> = Vec::new();
    let mut i: usize = 0;
    while i < n
        invariant
            n == s@.len(),
            i <= n,
            out@ == s@.subrange(0, i as int),
        decreases n - i,
    {
        out.push(s.get_char(i));
        i += 1;
        assert(out@ =~= s@.subrange(0, i as int));
    }
    assert(out@ =~= s@);
    out
}

/// Equality of two string slices, character by character.
pub fn str_eq(a: &str, b: &str) -> (r: bool)
    ensures
        r == (a@ == b@),
{
    let n = a.unicode_len();
    let m = b.unicode_len();
    if n != m {
        return false;
    }
    let mut i: usize = 0;
    while i < n
        invariant
            n == a@.len(),
            m == b@.len(),
            n == m,
            i <= n,
            forall|j: int| 0 <= j < i ==> a@[j] == b@[j],
        decreases n - i,
    {
        if a.get_char(i) != b.get_char(i) {
            return false;
        }
        i += 1;
    }
    assert(a@ =~= b@);
    true
}

/// Whether `s` begins with `prefix`.
pub fn str_starts_with(s: &str, prefix: &str) -> (r: bool)
    ensures
        r == (prefix@.len() <= s@.len() && s@.subrange(0, prefix@.len() as int) == prefix@),
{
    let n = s.unicode_len();
    let m = prefix.unicode_len();
    if m > n {
        return false;
    }
    let mut i: usize = 0;
    while i < m
        invariant
            n == s@.len(),
            m == prefix@.len(),
            m <= n,
            i <= m,
            forall|j: int| 0 <= j < i ==> s@[j] == prefix@[j],
        decreases m - i,
    {
        if s.get_char(i) != prefix.get_char(i) {
            return false;
        }
        i += 1;
    }
    assert(s@.subrange(0, m as int) =~= prefix@);
    true
}

/// The string made of the characters of `a` followed by those of `b`.
pub fn concat_str(a: &str, b: &str) -> (r: String)
    ensures
        r@ == a@ + b@,
{
    let mut s = String::from_str(a);
    s.append(b);
    s
}


/// The decimal digit character of a value below 10.
pub open spec fn digit_char(d: nat) -> char {
    (('0' as nat) + d) as char
}

/// Decimal notation of a natural number, without leading zeros.
pub open spec fn decimal(n: nat) -> Seq<char>
    decreases n,
{
    if n < 10 {
        seq![digit_char(n)]
    } else {
        decimal(n / 10).push(digit_char(n % 10))
    }
}

/// Appends the decimal notation of `n` to `out`.
pub fn push_decimal(out: &mut Vec<char>, n: u64)
    ensures
        final(out)@ == old(out)@ + decimal(n as nat),
    decreases n,
{
    if n >= 10 {
        push_decimal(out, n / 10);
    }
    let d = (n % 10) as u8;
    out.push((0x30u8 + d) as char);
    assert(((0x30u8 + d) as char) == digit_char((n % 10) as nat));
}

/// Decimal notation of `n`, as `format!("{}", n)` writes it.
pub fn decimal_string(n: u64) -> (r: String)
    ensures
        r@ == decimal(n as nat),
{
    let mut v: Vec<char> = Vec::new();
    push_decimal(&mut v, n);
    assert(v@ =~= decimal(n as nat));
    string_from_chars(&v)
}

} // verus!
