//! Character-level text handling: trimming, ASCII case folding, prefix and
//! separator search, specified over the `Seq<char>` view of strings.

use vstd::prelude::*;

verus! {

/// `String::push` appends one character.
pub assume_specification[ String::push ](s: &mut String, ch: char)
    ensures
        final(s)@ == old(s)@.push(ch),
;

/// Unicode `White_Space`, the class that `str::trim` removes.
pub open spec fn is_white_space(c: char) -> bool {
    ||| ('\u{9}' <= c && c <= '\u{d}')
    ||| c == ' '
    ||| c == '\u{85}'
    ||| c == '\u{a0}'
    ||| c == '\u{1680}'
    ||| ('\u{2000}' <= c && c <= '\u{200a}')
    ||| c == '\u{2028}'
    ||| c == '\u{2029}'
    ||| c == '\u{202f}'
    ||| c == '\u{205f}'
    ||| c == '\u{3000}'
}

/// `s` without its leading white space.
pub open spec fn trim_start(s: Seq<char>) -> Seq<char>
    decreases s.len(),
{
    if s.len() > 0 && is_white_space(s[0]) {
        trim_start(s.drop_first())
    } else {
        s
    }
}

/// `s` without its trailing white space.
pub open spec fn trim_end(s: Seq<char>) -> Seq<char>
    decreases s.len(),
{
    if s.len() > 0 && is_white_space(s.last()) {
        trim_end(s.drop_last())
    } else {
        s
    }
}

/// `s` without leading and trailing white space (`str::trim`).
pub open spec fn trim(s: Seq<char>) -> Seq<char> {
    trim_end(trim_start(s))
}

/// `s` without any leading copies of `c` (`str::trim_start_matches` with a char).
pub open spec fn strip_leading(s: Seq<char>, c: char) -> Seq<char>
    decreases s.len(),
{
    if s.len() > 0 && s[0] == c {
        strip_leading(s.drop_first(), c)
    } else {
        s
    }
}

/// ASCII lower case of one character; other characters are unchanged.
pub open spec fn lower_char(c: char) -> char {
    if 'A' <= c && c <= 'Z' {
        ((c as u32) + 32) as char
    } else {
        c
    }
}

/// ASCII lower case of a string (`str::to_ascii_lowercase`).
pub open spec fn lower(s: Seq<char>) -> Seq<char> {
    s.map_values(|c: char| lower_char(c))
}

/// Whether `s` begins with `p`.
pub open spec fn has_prefix(s: Seq<char>, p: Seq<char>) -> bool {
    p.len() <= s.len() && s.subrange(0, p.len() as int) == p
}

/// Whether `p` occurs in `s` at position `i`.
pub open spec fn occurs_at(s: Seq<char>, p: Seq<char>, i: int) -> bool {
    0 <= i && i + p.len() <= s.len() && s.subrange(i, i + p.len()) == p
}

/// The first position at which `p` occurs in `s`, if any.
#[verifier::opaque]
pub open spec fn find(s: Seq<char>, p: Seq<char>) -> Option<int> {
    if exists|i: int| occurs_at(s, p, i) {
        Some(choose|i: int| occurs_at(s, p, i) && forall|j: int| 0 <= j < i ==> !occurs_at(s, p, j))
    } else {
        None
    }
}

/// `s` split around the first occurrence of `p` (`str::split_once`).
pub open spec fn split_once(s: Seq<char>, p: Seq<char>) -> Option<(Seq<char>, Seq<char>)> {
    match find(s, p) {
        Some(i) => Some((s.subrange(0, i), s.subrange(i + p.len(), s.len() as int))),
        None => None,
    }
}

/// The number of bytes of the UTF-8 encoding of `s` (`str::len`).
pub open spec fn utf8_len(s: Seq<char>) -> nat {
    vstd::utf8::encode_utf8(s).len()
}

/// Exec form of [`is_white_space`].
pub fn char_is_white_space(c: char) -> (b: bool)
    ensures
        b == is_white_space(c),
{
    ('\u{9}' <= c && c <= '\u{d}') || c == ' ' || c == '\u{85}' || c == '\u{a0}' || c == '\u{1680}'
        || ('\u{2000}' <= c && c <= '\u{200a}') || c == '\u{2028}' || c == '\u{2029}' || c
        == '\u{202f}' || c == '\u{205f}' || c == '\u{3000}'
}

/// Exec form of [`lower_char`].
pub fn lower_char_exec(c: char) -> (r: char)
    ensures
        r == lower_char(c),
{
    if 'A' <= c && c <= 'Z' {
        let u: u32 = (c as u32) + 32;
        proof {
            assert(0x61 <= u <= 0x7a);
        }
        char_from_ascii_range(u)
    } else {
        c
    }
}

fn char_from_ascii_range(u: u32) -> (c: char)
    requires
        u < 0x80,
    ensures
        c == u as char,
{
    (u as u8) as char
}

/// The characters of `s`, in order.
pub fn chars_of(s: &str) -> (out: Vec<char>)
    ensures
        out@ == s@,
{
    broadcast use vstd::string::group_string_axioms;

    let mut out: Vec<char> = Vec::new();
    for c in it: s.chars()
        invariant
            it.seq() == s@,
            out@ == it.seq().take(it.index() as int),
    {
        out.push(c);
    }
    out
}

/// A `String` holding `cs[lo..hi]`.
pub fn string_from_range(cs: &Vec<char>, lo: usize, hi: usize) -> (s: String)
    requires
        lo <= hi <= cs.len(),
    ensures
        s@ == cs@.subrange(lo as int, hi as int),
{
    let mut s = String::new();
    let mut i = lo;
    while i < hi
        invariant
            lo <= i <= hi <= cs.len(),
            s@ == cs@.subrange(lo as int, i as int),
        decreases hi - i,
    {
        s.push(cs[i]);
        i = i + 1;
        assert(s@ =~= cs@.subrange(lo as int, i as int));
    }
    s
}

/// A `String` holding all of `cs`.
pub fn string_from_chars(cs: &Vec<char>) -> (s: String)
    ensures
        s@ == cs@,
{
    let s = string_from_range(cs, 0, cs.len());
    assert(cs@.subrange(0, cs@.len() as int) =~= cs@);
    s
}

proof fn lemma_trim_start_skip(s: Seq<char>, i: int)
    requires
        0 <= i < s.len(),
        is_white_space(s[i]),
    ensures
        trim_start(s.skip(i)) == trim_start(s.skip(i + 1)),
{
    assert(s.skip(i).drop_first() =~= s.skip(i + 1));
}

proof fn lemma_trim_end_take(s: Seq<char>, j: int)
    requires
        0 < j <= s.len(),
        is_white_space(s[j - 1]),
    ensures
        trim_end(s.take(j)) == trim_end(s.take(j - 1)),
{
    assert(s.take(j).drop_last() =~= s.take(j - 1));
}

/// Bounds `(lo, hi)` with `cs[lo..hi] == trim(cs)`.
pub fn trim_bounds(cs: &Vec<char>) -> (r: (usize, usize))
    ensures
        r.0 <= r.1 <= cs.len(),
        cs@.subrange(r.0 as int, r.1 as int) == trim(cs@),
{
    let n = cs.len();
    let mut lo: usize = 0;
    assert(cs@.skip(0) =~= cs@);
    while lo < n && char_is_white_space(cs[lo])
        invariant
            lo <= n == cs.len(),
            trim_start(cs@) == trim_start(cs@.skip(lo as int)),
        decreases n - lo,
    {
        proof {
            lemma_trim_start_skip(cs@, lo as int);
        }
        lo = lo + 1;
    }
    let ghost rest = cs@.skip(lo as int);
    assert(trim_start(rest) == rest);
    let mut hi: usize = n;
    assert(rest.take(rest.len() as int) =~= rest);
    while hi > lo && char_is_white_space(cs[hi - 1])
        invariant
            lo <= hi <= n == cs.len(),
            rest == cs@.skip(lo as int),
            trim_end(rest) == trim_end(rest.take(hi - lo)),
        decreases hi - lo,
    {
        proof {
            lemma_trim_end_take(rest, hi - lo);
        }
        hi = hi - 1;
    }
    assert(trim_end(rest.take(hi - lo)) == rest.take(hi - lo));
    assert(rest.take(hi - lo) =~= cs@.subrange(lo as int, hi as int));
    (lo, hi)
}

/// `str::trim`: `s` without leading and trailing white space.
pub fn trimmed(s: &str) -> (r: String)
    ensures
        r@ == trim(s@),
{
    let cs = chars_of(s);
    let (lo, hi) = trim_bounds(&cs);
    string_from_range(&cs, lo, hi)
}


proof fn lemma_encode_utf8_concat(a: Seq<char>, b: Seq<char>)
    ensures
        vstd::utf8::encode_utf8(a + b) == vstd::utf8::encode_utf8(a) + vstd::utf8::encode_utf8(b),
    decreases a.len(),
{
    if a.len() > 0 {
        assert((a + b).drop_first() =~= a.drop_first() + b);
        lemma_encode_utf8_concat(a.drop_first(), b);
        assert(vstd::utf8::encode_utf8(a + b) =~= vstd::utf8::encode_utf8(a)
            + vstd::utf8::encode_utf8(b));
    } else {
        assert(a + b =~= b);
        assert(vstd::utf8::encode_utf8(a) =~= Seq::<u8>::empty());
        assert(vstd::utf8::encode_utf8(a) + vstd::utf8::encode_utf8(b) =~= vstd::utf8::encode_utf8(b));
    }
}

proof fn lemma_utf8_len_push(s: Seq<char>, c: char)
    ensures
        utf8_len(s.push(c)) == utf8_len(s) + vstd::utf8::encode_scalar(c as u32).len(),
{
    lemma_encode_utf8_concat(s, seq![c]);
    assert(s.push(c) =~= s + seq![c]);
    assert(seq![c].drop_first() =~= Seq::<char>::empty());
    assert(vstd::utf8::encode_utf8(seq![c]) =~= vstd::utf8::encode_scalar(c as u32)
        + vstd::utf8::encode_utf8(Seq::<char>::empty()));
}

/// The number of bytes that encode `c` in UTF-8.
fn char_utf8_width(c: char) -> (w: usize)
    ensures
        w == vstd::utf8::encode_scalar(c as u32).len(),
        1 <= w <= 4,
{
    proof {
        vstd::utf8::char_is_scalar(c);
    }
    let u = c as u32;
    if u <= 0x7f {
        1
    } else if u <= 0x7ff {
        2
    } else if u <= 0xffff {
        3
    } else {
        4
    }
}

/// Whether the UTF-8 encoding of `cs` takes at most `max` bytes.
pub fn utf8_len_at_most(cs: &Vec<char>, max: usize) -> (b: bool)
    ensures
        b == (utf8_len(cs@) <= max),
{
    let mut total: usize = 0;
    let mut i: usize = 0;
    assert(cs@.take(0) =~= Seq::<char>::empty());
    assert(utf8_len(Seq::<char>::empty()) == 0);
    while i < cs.len()
        invariant
            i <= cs.len(),
            total == utf8_len(cs@.take(i as int)),
            total <= max,
        decreases cs.len() - i,
    {
        let w = char_utf8_width(cs[i]);
        proof {
            lemma_utf8_len_push(cs@.take(i as int), cs@[i as int]);
            assert(cs@.take(i as int).push(cs@[i as int]) =~= cs@.take(i + 1));
        }
        if w > max - total {
            proof {
                lemma_utf8_len_prefix(cs@, i + 1);
            }
            return false;
        }
        total = total + w;
        i = i + 1;
    }
    assert(cs@.take(cs@.len() as int) =~= cs@);
    true
}

proof fn lemma_utf8_len_prefix(s: Seq<char>, i: int)
    requires
        0 <= i <= s.len(),
    ensures
        utf8_len(s.take(i)) <= utf8_len(s),
{
    lemma_encode_utf8_concat(s.take(i), s.skip(i));
    assert(s.take(i) + s.skip(i) =~= s);
}

/// `cs[lo..hi]` as a new vector.
pub fn sub_chars(cs: &Vec<char>, lo: usize, hi: usize) -> (out: Vec<char>)
    requires
        lo <= hi <= cs.len(),
    ensures
        out@ == cs@.subrange(lo as int, hi as int),
{
    let mut out: Vec<char> = Vec::new();
    let mut i = lo;
    while i < hi
        invariant
            lo <= i <= hi <= cs.len(),
            out@ == cs@.subrange(lo as int, i as int),
        decreases hi - i,
    {
        out.push(cs[i]);
        i = i + 1;
        assert(out@ =~= cs@.subrange(lo as int, i as int));
    }
    out
}

/// [`trim`] of a character vector.
pub fn trim_chars(cs: &Vec<char>) -> (out: Vec<char>)
    ensures
        out@ == trim(cs@),
{
    let (lo, hi) = trim_bounds(cs);
    sub_chars(cs, lo, hi)
}

/// [`strip_leading`] of a character vector.
pub fn strip_leading_chars(cs: &Vec<char>, c: char) -> (out: Vec<char>)
    ensures
        out@ == strip_leading(cs@, c),
{
    let mut lo: usize = 0;
    assert(cs@.skip(0) =~= cs@);
    while lo < cs.len() && cs[lo] == c
        invariant
            lo <= cs.len(),
            strip_leading(cs@, c) == strip_leading(cs@.skip(lo as int), c),
        decreases cs.len() - lo,
    {
        assert(cs@.skip(lo as int).drop_first() =~= cs@.skip(lo + 1));
        lo = lo + 1;
    }
    assert(cs@.skip(lo as int) =~= cs@.subrange(lo as int, cs@.len() as int));
    sub_chars(cs, lo, cs.len())
}

/// [`lower`] of a character vector.
pub fn lower_chars(cs: &Vec<char>) -> (out: Vec<char>)
    ensures
        out@ == lower(cs@),
{
    let mut out: Vec<char> = Vec::new();
    let mut i: usize = 0;
    while i < cs.len()
        invariant
            i <= cs.len(),
            out@ == lower(cs@.take(i as int)),
        decreases cs.len() - i,
    {
        out.push(lower_char_exec(cs[i]));
        i = i + 1;
        assert(out@ =~= lower(cs@.take(i as int)));
    }
    assert(cs@.take(cs@.len() as int) =~= cs@);
    out
}

/// Whether `c` occurs in `cs`.
pub fn contains_char(cs: &Vec<char>, c: char) -> (b: bool)
    ensures
        b == cs@.contains(c),
{
    let mut i: usize = 0;
    while i < cs.len()
        invariant
            i <= cs.len(),
            forall|j: int| 0 <= j < i ==> cs@[j] != c,
        decreases cs.len() - i,
    {
        if cs[i] == c {
            return true;
        }
        i = i + 1;
    }
    false
}

/// Whether `cs` begins with `p`.
pub fn starts_with_chars(cs: &Vec<char>, p: &Vec<char>) -> (b: bool)
    ensures
        b == has_prefix(cs@, p@),
{
    if p.len() > cs.len() {
        return false;
    }
    let mut i: usize = 0;
    while i < p.len()
        invariant
            p.len() <= cs.len(),
            i <= p.len(),
            forall|j: int| 0 <= j < i ==> cs@[j] == p@[j],
        decreases p.len() - i,
    {
        if cs[i] != p[i] {
            assert(cs@.subrange(0, p@.len() as int)[i as int] != p@[i as int]);
            return false;
        }
        i = i + 1;
    }
    assert(cs@.subrange(0, p@.len() as int) =~= p@);
    true
}

/// Whether `cs` and `p` hold the same characters.
pub fn chars_equal(cs: &Vec<char>, p: &Vec<char>) -> (b: bool)
    ensures
        b == (cs@ == p@),
{
    if cs.len() != p.len() {
        return false;
    }
    let b = starts_with_chars(cs, p);
    if b {
        assert(cs@ =~= cs@.subrange(0, p@.len() as int));
    } else {
        assert(cs@.subrange(0, p@.len() as int) =~= cs@);
    }
    b
}

/// Whether `p` occurs in `cs` at position `i`.
fn occurs_at_exec(cs: &Vec<char>, p: &Vec<char>, i: usize) -> (b: bool)
    ensures
        b == occurs_at(cs@, p@, i as int),
{
    if i > cs.len() || p.len() > cs.len() - i {
        return false;
    }
    let mut k: usize = 0;
    while k < p.len()
        invariant
            i + p.len() <= cs.len(),
            k <= p.len(),
            forall|j: int| 0 <= j < k ==> cs@[i + j] == p@[j],
        decreases p.len() - k,
    {
        if cs[i + k] != p[k] {
            assert(cs@.subrange(i as int, i + p@.len())[k as int] != p@[k as int]);
            return false;
        }
        k = k + 1;
    }
    assert(cs@.subrange(i as int, i + p@.len()) =~= p@);
    true
}

/// The first position at which `p` occurs in `cs` ([`find`]).
pub fn find_chars(cs: &Vec<char>, p: &Vec<char>) -> (r: Option<usize>)
    ensures
        r matches Some(i) ==> find(cs@, p@) == Some(i as int) && i + p@.len() <= cs@.len(),
        r is None ==> find(cs@, p@) is None,
{
    reveal(find);
    if p.len() == 0 {
        assert(cs@.subrange(0, 0) =~= p@);
        assert(occurs_at(cs@, p@, 0));
        return Some(0);
    }
    let mut i: usize = 0;
    while i < cs.len()
        invariant
            i <= cs.len(),
            p@.len() > 0,
            forall|j: int| 0 <= j < i ==> !occurs_at(cs@, p@, j),
        decreases cs.len() - i,
    {
        if occurs_at_exec(cs, p, i) {
            assert(i + p@.len() <= cs@.len());
            proof {
                reveal(find);
                let k = choose|k: int| occurs_at(cs@, p@, k) && forall|j: int| 0 <= j < k ==> !occurs_at(cs@, p@, j);
                if k > i {
                    assert(!occurs_at(cs@, p@, i as int));
                }
            }
            return Some(i);
        }
        i = i + 1;
    }
    assert forall|j: int| !occurs_at(cs@, p@, j) by {
        if 0 <= j < i {
        }
    }
    reveal(find);
    None
}


/// [`trim_start`] of a character vector.
pub fn trim_start_chars(cs: &Vec<char>) -> (out: Vec<char>)
    ensures
        out@ == trim_start(cs@),
{
    let n = cs.len();
    let mut lo: usize = 0;
    assert(cs@.skip(0) =~= cs@);
    while lo < n && char_is_white_space(cs[lo])
        invariant
            lo <= n == cs.len(),
            trim_start(cs@) == trim_start(cs@.skip(lo as int)),
        decreases n - lo,
    {
        proof {
            lemma_trim_start_skip(cs@, lo as int);
        }
        lo = lo + 1;
    }
    assert(cs@.skip(lo as int) =~= cs@.subrange(lo as int, n as int));
    sub_chars(cs, lo, n)
}


/// What [`trim_start`] leaves begins with no white space, and is a suffix.
pub proof fn lemma_trim_start_shape(s: Seq<char>)
    ensures
        trim_start(s).len() == 0 || !is_white_space(trim_start(s)[0]),
        trim_start(s).len() <= s.len(),
        trim_start(s) == s.skip(s.len() - trim_start(s).len()),
    decreases s.len(),
{
    if s.len() > 0 && is_white_space(s[0]) {
        lemma_trim_start_shape(s.drop_first());
        assert(s.drop_first().skip(s.drop_first().len() - trim_start(s).len()) =~= s.skip(
            s.len() - trim_start(s).len(),
        ));
    } else {
        assert(s.skip(0) =~= s);
    }
}

/// What [`trim_end`] leaves ends with no white space, and is a prefix.
pub proof fn lemma_trim_end_shape(s: Seq<char>)
    ensures
        trim_end(s).len() == 0 || !is_white_space(trim_end(s).last()),
        trim_end(s).len() <= s.len(),
        trim_end(s) == s.take(trim_end(s).len() as int),
    decreases s.len(),
{
    if s.len() > 0 && is_white_space(s.last()) {
        lemma_trim_end_shape(s.drop_last());
        assert(s.drop_last().take(trim_end(s).len() as int) =~= s.take(trim_end(s).len() as int));
    } else {
        assert(s.take(s.len() as int) =~= s);
    }
}

/// Trimmed text neither starts nor ends with white space.
pub proof fn lemma_trim_shape(s: Seq<char>)
    ensures
        trim(s).len() == 0 || (!is_white_space(trim(s)[0]) && !is_white_space(trim(s).last())),
{
    lemma_trim_start_shape(s);
    lemma_trim_end_shape(trim_start(s));
    let u = trim_start(s);
    if trim(s).len() > 0 {
        assert(trim(s)[0] == u[0]);
    }
}

/// Text that neither starts nor ends with white space is its own trim.
pub proof fn lemma_trim_fixed(s: Seq<char>)
    requires
        s.len() == 0 || (!is_white_space(s[0]) && !is_white_space(s.last())),
    ensures
        trim(s) == s,
{
}

/// Trimming twice is trimming once.
pub proof fn lemma_trim_idempotent(s: Seq<char>)
    ensures
        trim(trim(s)) == trim(s),
{
    lemma_trim_shape(s);
    lemma_trim_fixed(trim(s));
}

/// What [`strip_leading`] leaves does not begin with the stripped character,
/// and is a suffix.
pub proof fn lemma_strip_leading_shape(s: Seq<char>, c: char)
    ensures
        strip_leading(s, c).len() == 0 || strip_leading(s, c)[0] != c,
        strip_leading(s, c).len() <= s.len(),
        strip_leading(s, c) == s.skip(s.len() - strip_leading(s, c).len()),
    decreases s.len(),
{
    if s.len() > 0 && s[0] == c {
        lemma_strip_leading_shape(s.drop_first(), c);
        assert(s.drop_first().skip(s.drop_first().len() - strip_leading(s, c).len()) =~= s.skip(
            s.len() - strip_leading(s, c).len(),
        ));
    } else {
        assert(s.skip(0) =~= s);
    }
}

/// Lower case has no ASCII capital letters, and lowering it again changes nothing.
pub proof fn lemma_lower_shape(s: Seq<char>)
    ensures
        forall|i: int| 0 <= i < s.len() ==> !('A' <= #[trigger] lower(s)[i] && lower(s)[i] <= 'Z'),
        lower(lower(s)) == lower(s),
        lower(s).len() == s.len(),
{
    assert forall|i: int| 0 <= i < s.len() implies !('A' <= #[trigger] lower(s)[i] && lower(s)[i]
        <= 'Z') by {
        let c = s[i];
        if 'A' <= c && c <= 'Z' {
            let d = ((c as u32) + 32) as char;
            assert(d == lower(s)[i]);
            assert((d as u32) == (c as u32) + 32);
        }
    }
    assert(lower(lower(s)) =~= lower(s));
}

/// ASCII lower case keeps the length, leaves every character that is not an
/// ASCII capital letter as it is, and moves each capital 32 code points up to
/// its small letter.
pub proof fn law_lower_meaning(s: Seq<char>)
    ensures
        lower(s).len() == s.len(),
        forall|i: int|
            0 <= i < s.len() && !('A' <= s[i] && s[i] <= 'Z') ==> #[trigger] lower(s)[i] == s[i],
        forall|i: int|
            0 <= i < s.len() && 'A' <= s[i] && s[i] <= 'Z' ==> (#[trigger] lower(s)[i] as u32) == (
            s[i] as u32) + 32,
{
    assert forall|i: int| 0 <= i < s.len() && 'A' <= s[i] && s[i] <= 'Z' implies (
    #[trigger] lower(s)[i] as u32) == (s[i] as u32) + 32 by {
        let d = ((s[i] as u32) + 32) as char;
        assert(lower(s)[i] == d);
        assert((d as u32) == (s[i] as u32) + 32);
    }
}

} // verus!
