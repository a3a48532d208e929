//! Text helpers shared by the decoder and the schema parser: UTF-8 decoding,
//! Unicode white space, and the splitting and trimming of character sequences.
use vstd::prelude::*;
use vstd::std_specs::iter::IteratorSpec;
use vstd::utf8::*;

verus! {

#[verifier::external_type_specification]
#[verifier::external_body]
pub struct ExUtf8Error(std::str::Utf8Error);

/// `std::str::from_utf8`: its documentation promises `Ok` exactly when the bytes
/// are valid UTF-8, and the returned `str` then holds the decoded characters.
/// What the error value holds (the valid prefix length, the error length) is not stated.
#[verifier::external_body]
pub fn str_from_utf8(bytes: &[u8]) -> (r: Result<&str, std::str::Utf8Error>)
    ensures
        r is Ok <==> valid_utf8(bytes@),
        r matches Ok(s) ==> s@ == decode_utf8(bytes@),
{
    std::str::from_utf8(bytes)
}

/// Collecting characters into a `String` (`FromIterator<&char> for String`)
/// gives a string of exactly those characters.
#[verifier::external_body]
pub fn string_from_chars(cs: &[char]) -> (s: String)
    ensures
        s@ == cs@,
{
    cs.iter().collect()
}

/// The characters of a string slice, in order.
pub fn chars_of(s: &str) -> (v: Vec<char>)
    ensures
        v@ == s@,
{
    broadcast use vstd::string::axiom_spec_iter, vstd::string::next_postcondition;
    let mut v: Vec<char> = Vec::new();
    let mut it = s.chars();
    loop
        invariant
            v@ + it.remaining() == s@,
            it.decrease() is Some,
        decreases it.decrease()->Some_0,
    {
        let ghost before = it.remaining();
        match it.next() {
            Some(c) => {
                v.push(c);
                assert(v@ + it.remaining() =~= s@) by {
                    assert(before =~= seq![c] + before.drop_first());
                }
            },
            None => {
                assert(v@ =~= s@);
                return v;
            },
        }
    }
}

/// Unicode `White_Space`, the set `char::is_whitespace` tests.
pub open spec fn is_ws(c: char) -> bool {
    let u = c as u32;
    (0x09 <= u && u <= 0x0D) || u == 0x20 || u == 0x85 || u == 0xA0 || u == 0x1680
        || (0x2000 <= u && u <= 0x200A) || u == 0x2028 || u == 0x2029 || u == 0x202F
        || u == 0x205F || u == 0x3000
}

/// The classes of characters the schema grammar distinguishes.
pub enum Class {
    /// White space.
    Space,
    /// Anything but white space.
    NonSpace,
    /// A character of a type name: an ASCII letter or digit, `_` or `/`.
    TypeName,
    /// An ASCII digit.
    Digit,
    /// `=`.
    Equals,
}

pub open spec fn in_class(c: char, k: Class) -> bool {
    match k {
        Class::Space => is_ws(c),
        Class::NonSpace => !is_ws(c),
        Class::TypeName => ('A' <= c && c <= 'Z') || ('a' <= c && c <= 'z') || ('0' <= c && c <= '9')
            || c == '_' || c == '/',
        Class::Digit => '0' <= c && c <= '9',
        Class::Equals => c == '=',
    }
}

/// The number of leading characters of `s` in class `k`.
pub open spec fn prefix_len(s: Seq<char>, k: Class) -> nat
    decreases s.len(),
{
    if s.len() > 0 && in_class(s[0], k) {
        1 + prefix_len(s.drop_first(), k)
    } else {
        0
    }
}

/// The number of trailing white-space characters of `s`.
pub open spec fn space_suffix_len(s: Seq<char>) -> nat
    decreases s.len(),
{
    if s.len() > 0 && is_ws(s.last()) {
        1 + space_suffix_len(s.drop_last())
    } else {
        0
    }
}

pub open spec fn trim_start(s: Seq<char>) -> Seq<char> {
    s.skip(prefix_len(s, Class::Space) as int)
}

pub open spec fn trim_end(s: Seq<char>) -> Seq<char> {
    s.take(s.len() - space_suffix_len(s))
}

/// `s` without leading and trailing white space (`str::trim`).
pub open spec fn trim(s: Seq<char>) -> Seq<char> {
    trim_end(trim_start(s))
}

/// The index of the first `c` in `s`.
#[verifier::opaque]
pub open spec fn index_of(s: Seq<char>, c: char) -> Option<int> {
    if exists|i: int| 0 <= i < s.len() && s[i] == c {
        Some(choose|i: int| 0 <= i < s.len() && s[i] == c && forall|j: int| 0 <= j < i ==> s[j] != c)
    } else {
        None
    }
}

/// `s` split at every `c` (`str::split`).
pub open spec fn split_char(s: Seq<char>, c: char) -> Seq<Seq<char>>
    decreases s.len(),
{
    match index_of(s, c) {
        Some(i) => if 0 <= i < s.len() {
            seq![s.take(i)] + split_char(s.skip(i + 1), c)
        } else {
            seq![s]
        },
        None => seq![s],
    }
}

/// A line without the `\r` of a `\r\n` line ending.
pub open spec fn strip_cr(l: Seq<char>) -> Seq<char> {
    if l.len() > 0 && l.last() == '\r' {
        l.drop_last()
    } else {
        l
    }
}

/// The lines of `s` (`str::lines`): split at `\n`, a `\r` before the `\n` removed,
/// and no empty last line after a final `\n`.
pub open spec fn lines(s: Seq<char>) -> Seq<Seq<char>>
    decreases s.len(),
{
    match index_of(s, '\n') {
        Some(i) => if 0 <= i < s.len() {
            seq![strip_cr(s.take(i))] + lines(s.skip(i + 1))
        } else {
            Seq::empty()
        },
        None => if s.len() == 0 {
            Seq::empty()
        } else {
            seq![s]
        },
    }
}

pub proof fn lemma_index_of(s: Seq<char>, c: char)
    ensures
        index_of(s, c) matches Some(i) ==> 0 <= i < s.len() && s[i] == c && forall|j: int| 0 <= j < i ==> s[j] != c,
        index_of(s, c) is None ==> forall|j: int| 0 <= j < s.len() ==> s[j] != c,
{
    reveal(index_of);
    if exists|i: int| 0 <= i < s.len() && s[i] == c {
        let i0 = choose|i: int| 0 <= i < s.len() && s[i] == c;
        lemma_first_exists(s, c, i0);
    }
}

proof fn lemma_first_exists(s: Seq<char>, c: char, i0: int)
    requires
        0 <= i0 < s.len(),
        s[i0] == c,
    ensures
        exists|i: int| 0 <= i < s.len() && s[i] == c && forall|j: int| 0 <= j < i ==> s[j] != c,
    decreases i0,
{
    if exists|j: int| 0 <= j < i0 && s[j] == c {
        let j0 = choose|j: int| 0 <= j < i0 && s[j] == c;
        lemma_first_exists(s, c, j0);
    } else {
        assert(forall|j: int| 0 <= j < i0 ==> s[j] != c);
    }
}

/// A run of `j` leading characters of class `k`, not followed by another of
/// that class, is what `prefix_len` counts.
pub proof fn lemma_prefix_len_is(s: Seq<char>, k: Class, j: int)
    requires
        0 <= j <= s.len(),
        forall|i: int| 0 <= i < j ==> in_class(#[trigger] s[i], k),
        j < s.len() ==> !in_class(s[j], k),
    ensures
        prefix_len(s, k) == j,
{
    lemma_prefix_len(s, k);
    let p = prefix_len(s, k) as int;
    if p < j {
        assert(in_class(s[p], k));
    } else if p > j {
        assert(in_class(s[j], k));
    }
}

/// The run of class `k` that `prefix_len` counts: all of its characters are in
/// the class, and the character after it is not.
pub proof fn lemma_prefix_len(s: Seq<char>, k: Class)
    ensures
        prefix_len(s, k) <= s.len(),
        forall|i: int| 0 <= i < prefix_len(s, k) ==> in_class(#[trigger] s[i], k),
        prefix_len(s, k) < s.len() ==> !in_class(s[prefix_len(s, k) as int], k),
    decreases s.len(),
{
    if s.len() > 0 && in_class(s[0], k) {
        lemma_prefix_len(s.drop_first(), k);
        assert forall|i: int| 0 <= i < prefix_len(s, k) implies in_class(#[trigger] s[i], k) by {
            if i > 0 {
                assert(s[i] == s.drop_first()[i - 1]);
            }
        }
    }
}

/// Whether a character is in class `k`.
pub fn is_in_class(c: char, k: &Class) -> (b: bool)
    ensures
        b == in_class(c, *k),
{
    match k {
        Class::Space => {
            let u = c as u32;
            (0x09 <= u && u <= 0x0D) || u == 0x20 || u == 0x85 || u == 0xA0 || u == 0x1680
                || (0x2000 <= u && u <= 0x200A) || u == 0x2028 || u == 0x2029 || u == 0x202F
                || u == 0x205F || u == 0x3000
        },
        Class::NonSpace => {
            let u = c as u32;
            !((0x09 <= u && u <= 0x0D) || u == 0x20 || u == 0x85 || u == 0xA0 || u == 0x1680
                || (0x2000 <= u && u <= 0x200A) || u == 0x2028 || u == 0x2029 || u == 0x202F
                || u == 0x205F || u == 0x3000)
        },
        Class::TypeName => ('A' <= c && c <= 'Z') || ('a' <= c && c <= 'z') || ('0' <= c && c <= '9')
            || c == '_' || c == '/',
        Class::Digit => '0' <= c && c <= '9',
        Class::Equals => c == '=',
    }
}

/// The end of the run of class `k` that starts at `from`.
pub fn run_end(s: &[char], from: usize, k: &Class) -> (e: usize)
    requires
        from <= s@.len(),
    ensures
        e == from + prefix_len(s@.skip(from as int), *k),
        e <= s@.len(),
{
    let n = s.len();
    let mut i = from;
    while i < n && is_in_class(s[i], k)
        invariant
            from <= i <= n,
            n == s@.len(),
            from + prefix_len(s@.skip(from as int), *k) == i + prefix_len(s@.skip(i as int), *k),
        decreases n - i,
    {
        assert(s@.skip(i as int).drop_first() =~= s@.skip(i + 1));
        i = i + 1;
    }
    i
}

/// The start of the run of white space that ends at `to`.
pub fn space_run_start(s: &[char], to: usize) -> (b: usize)
    requires
        to <= s@.len(),
    ensures
        b == to - space_suffix_len(s@.take(to as int)),
{
    let mut i = to;
    while i > 0 && is_in_class(s[i - 1], &Class::Space)
        invariant
            0 <= i <= to <= s@.len(),
            to - space_suffix_len(s@.take(to as int)) == i - space_suffix_len(s@.take(i as int)),
        decreases i,
    {
        assert(s@.take(i as int).drop_last() =~= s@.take(i - 1));
        i = i - 1;
    }
    i
}

/// The characters `s[a..b]`.
pub fn slice_chars(s: &[char], a: usize, b: usize) -> (r: Vec<char>)
    requires
        a <= b <= s@.len(),
    ensures
        r@ == s@.subrange(a as int, b as int),
{
    let mut r: Vec<char> = Vec::new();
    let mut i = a;
    while i < b
        invariant
            a <= i <= b <= s@.len(),
            r@ == s@.subrange(a as int, i as int),
        decreases b - i,
    {
        r.push(s[i]);
        i = i + 1;
        assert(r@ =~= s@.subrange(a as int, i as int));
    }
    r
}

/// `s` without leading and trailing white space.
pub fn trimmed(s: &[char]) -> (r: Vec<char>)
    ensures
        r@ == trim(s@),
{
    let a = run_end(s, 0, &Class::Space);
    assert(s@.skip(0) =~= s@);
    let t = slice_chars(s, a, s.len());
    let b = space_run_start(t.as_slice(), t.len());
    assert(t@.take(t@.len() as int) =~= t@);
    let r = slice_chars(t.as_slice(), 0, b);
    assert(r@ =~= trim(s@));
    r
}

/// The index of the first `c` at or after `from`.
pub fn find_char(s: &[char], from: usize, c: char) -> (r: Option<usize>)
    requires
        from <= s@.len(),
    ensures
        r matches Some(i) ==> from <= i < s@.len() && index_of(s@.skip(from as int), c) == Some(i - from),
        r is None ==> index_of(s@.skip(from as int), c) is None,
{
    let n = s.len();
    let mut i = from;
    while i < n
        invariant
            from <= i <= n,
            n == s@.len(),
            forall|j: int| from <= j < i ==> s@[j] != c,
        decreases n - i,
    {
        if s[i] == c {
            proof {
                let t = s@.skip(from as int);
                lemma_index_of(t, c);
                assert(t[i - from] == c);
                let k = index_of(t, c)->0;
                if k < i - from {
                    assert(t[k] == s@[from + k]);
                } else if k > i - from {
                    assert(t[i - from] != c);
                }
            }
            return Some(i);
        }
        i = i + 1;
    }
    proof {
        let t = s@.skip(from as int);
        lemma_index_of(t, c);
        if index_of(t, c) is Some {
            let k = index_of(t, c)->0;
            assert(t[k] == s@[from + k]);
        }
    }
    None
}

} // verus!
