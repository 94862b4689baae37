//! Character-level text handling shared by the rest of the library: trimming,
//! ASCII case folding, file-name extensions, decimal rendering and the byte
//! keys that names are ordered by.

use vstd::prelude::*;
use vstd::utf8::encode_utf8;

verus! {

// ---------------------------------------------------------------------------
// Building and taking apart strings
// ---------------------------------------------------------------------------

/// `String::push`: the string gains `c` at its end.
#[verifier::external_body]
fn push_char(s: &mut String, c: char)
    ensures
        final(s)@ == old(s)@.push(c),
{
    s.push(c);
}

/// The characters of `s`, in order.
pub fn chars_of(s: &str) -> (out: Vec<char>)
    ensures
        out@ == s@,
{
    let mut out: Vec<char> = Vec::new();
    for c in it: s.chars()
        invariant
            it.seq() == s@,
            out@ == it.seq().take(it.index() as int),
    {
        out.push(c);
    }
    out
}

/// A string made of the characters `cs`.
pub fn string_of(cs: &[char]) -> (out: String)
    ensures
        out@ == cs@,
{
    let mut out = String::new();
    for i in 0..cs.len()
        invariant
            out@ == cs@.take(i as int),
    {
        push_char(&mut out, cs[i]);
    }
    out
}

/// An owned copy of `s`.
pub fn owned(s: &str) -> (out: String)
    ensures
        out@ == s@,
{
    s.to_owned()
}

/// Whether two character sequences are equal.
pub fn same_chars(a: &[char], b: &[char]) -> (r: bool)
    ensures
        r == (a@ == b@),
{
    if a.len() != b.len() {
        return false;
    }
    for i in 0..a.len()
        invariant
            a@.len() == b@.len(),
            forall|k: int| 0 <= k < i ==> a@[k] == b@[k],
    {
        if a[i] != b[i] {
            return false;
        }
    }
    assert(a@ =~= b@);
    true
}

/// Whether two strings hold the same characters.
pub fn same_text(a: &str, b: &str) -> (r: bool)
    ensures
        r == (a@ == b@),
{
    let x = chars_of(a);
    let y = chars_of(b);
    same_chars(x.as_slice(), y.as_slice())
}

// ---------------------------------------------------------------------------
// Whitespace and trimming
// ---------------------------------------------------------------------------

/// Unicode `White_Space`, the set `char::is_whitespace` and `str::trim` use.
pub open spec fn is_space(c: char) -> bool {
    let u = c as u32;
    ||| 0x09 <= u <= 0x0d
    ||| u == 0x20
    ||| u == 0x85
    ||| u == 0xa0
    ||| u == 0x1680
    ||| 0x2000 <= u <= 0x200a
    ||| u == 0x2028
    ||| u == 0x2029
    ||| u == 0x202f
    ||| u == 0x205f
    ||| u == 0x3000
}

pub fn char_is_space(c: char) -> (r: bool)
    ensures
        r == is_space(c),
{
    let u = c as u32;
    (0x09 <= u && u <= 0x0d) || u == 0x20 || u == 0x85 || u == 0xa0 || u == 0x1680 || (0x2000 <= u
        && u <= 0x200a) || u == 0x2028 || u == 0x2029 || u == 0x202f || u == 0x205f || u == 0x3000
}

/// `s` without its leading whitespace.
pub open spec fn trim_start(s: Seq<char>) -> Seq<char>
    decreases s.len(),
{
    if s.len() > 0 && is_space(s[0]) {
        trim_start(s.drop_first())
    } else {
        s
    }
}

/// `s` without its trailing whitespace.
pub open spec fn trim_end(s: Seq<char>) -> Seq<char>
    decreases s.len(),
{
    if s.len() > 0 && is_space(s.last()) {
        trim_end(s.drop_last())
    } else {
        s
    }
}

/// `s` without leading and trailing whitespace, as `str::trim` gives it.
pub open spec fn trim(s: Seq<char>) -> Seq<char> {
    trim_end(trim_start(s))
}

/// Trimmed text has no whitespace at either end, and trimming it again
/// changes nothing.
pub proof fn lemma_trim_is_trimmed(s: Seq<char>)
    ensures
        trim(s).len() > 0 ==> !is_space(trim(s)[0]) && !is_space(trim(s).last()),
        trim(trim(s)) == trim(s),
    decreases s.len(),
{
    lemma_trim_start_shape(s);
    lemma_trim_end_shape(trim_start(s));
    let t = trim(s);
    if t.len() > 0 {
        assert(trim_start(t) == t);
        assert(trim_end(t) == t);
    } else {
        assert(trim_start(t) == t);
    }
}

/// `trim_start(s)` is a suffix of `s` whose first character is not whitespace.
pub proof fn lemma_trim_start_shape(s: Seq<char>)
    ensures
        exists|k: int|
            0 <= k <= s.len() && trim_start(s) == s.skip(k) && (forall|j: int|
                0 <= j < k ==> is_space(#[trigger] s[j])),
        trim_start(s).len() > 0 ==> !is_space(trim_start(s)[0]),
    decreases s.len(),
{
    if s.len() > 0 && is_space(s[0]) {
        lemma_trim_start_shape(s.drop_first());
        let k = choose|k: int|
            0 <= k <= s.drop_first().len() && trim_start(s.drop_first()) == s.drop_first().skip(k)
                && (forall|j: int| 0 <= j < k ==> is_space(#[trigger] s.drop_first()[j]));
        assert(s.drop_first().skip(k) =~= s.skip(k + 1));
        assert forall|j: int| 0 <= j < k + 1 implies is_space(#[trigger] s[j]) by {
            if j > 0 {
                assert(s[j] == s.drop_first()[j - 1]);
            }
        }
    } else {
        assert(s.skip(0) =~= s);
    }
}

/// `trim_end(s)` is a prefix of `s` whose last character is not whitespace.
pub proof fn lemma_trim_end_shape(s: Seq<char>)
    ensures
        exists|k: int|
            0 <= k <= s.len() && trim_end(s) == s.take(k) && (forall|j: int|
                k <= j < s.len() ==> is_space(#[trigger] s[j])),
        trim_end(s).len() > 0 ==> !is_space(trim_end(s).last()),
        trim_start(s).len() > 0 && s.len() > 0 && !is_space(s[0]) ==> trim_end(s).len() > 0,
        s.len() > 0 && !is_space(s[0]) ==> trim_start(trim_end(s)) == trim_end(s),
    decreases s.len(),
{
    if s.len() > 0 && is_space(s.last()) {
        lemma_trim_end_shape(s.drop_last());
        let k = choose|k: int|
            0 <= k <= s.drop_last().len() && trim_end(s.drop_last()) == s.drop_last().take(k)
                && (forall|j: int|
                k <= j < s.drop_last().len() ==> is_space(#[trigger] s.drop_last()[j]));
        assert(s.drop_last().take(k) =~= s.take(k));
        assert forall|j: int| k <= j < s.len() implies is_space(#[trigger] s[j]) by {
            if j < s.len() - 1 {
                assert(s[j] == s.drop_last()[j]);
            }
        }
        if s.len() > 0 && !is_space(s[0]) {
            if s.len() == 1 {
            } else {
                assert(s.drop_last()[0] == s[0]);
            }
        }
    } else {
        assert(s.take(s.len() as int) =~= s);
    }
}

/// The characters of `s` without leading and trailing whitespace.
pub fn trim_chars(s: &[char]) -> (out: Vec<char>)
    ensures
        out@ == trim(s@),
{
    let n = s.len();
    let mut i: usize = 0;
    assert(s@.skip(0) =~= s@);
    while i < n && char_is_space(s[i])
        invariant
            i <= n == s@.len(),
            trim_start(s@) == trim_start(s@.skip(i as int)),
        decreases n - i,
    {
        assert(s@.skip(i as int).drop_first() =~= s@.skip(i + 1));
        i = i + 1;
    }
    assert(trim_start(s@.skip(i as int)) == s@.skip(i as int)) by {
        if i == n {
            assert(s@.skip(i as int).len() == 0);
        } else {
            assert(s@.skip(i as int)[0] == s@[i as int]);
        }
    }
    let mut j: usize = n;
    while j > i && char_is_space(s[j - 1])
        invariant
            i <= j <= n == s@.len(),
            trim_start(s@) == s@.skip(i as int),
            trim(s@) == trim_end(s@.subrange(i as int, j as int)),
        decreases j,
    {
        assert(s@.subrange(i as int, j as int).drop_last() =~= s@.subrange(i as int, j - 1));
        j = j - 1;
    }
    assert(s@.skip(i as int) =~= s@.subrange(i as int, n as int));
    let mut out: Vec<char> = Vec::new();
    let mut k: usize = i;
    while k < j
        invariant
            i <= k <= j <= n == s@.len(),
            out@ == s@.subrange(i as int, k as int),
        decreases j - k,
    {
        out.push(s[k]);
        k = k + 1;
        assert(out@ =~= s@.subrange(i as int, k as int));
    }
    proof {
        let t = s@.subrange(i as int, j as int);
        if j > i {
            assert(t.last() == s@[j - 1]);
        }
        assert(trim_end(t) == t);
    }
    out
}

/// `s` with leading and trailing whitespace removed.
pub fn trimmed(s: &str) -> (out: String)
    ensures
        out@ == trim(s@),
{
    let cs = chars_of(s);
    let t = trim_chars(cs.as_slice());
    string_of(t.as_slice())
}

// ---------------------------------------------------------------------------
// ASCII case
// ---------------------------------------------------------------------------

/// `char::to_ascii_lowercase`: `A`..`Z` become `a`..`z`, all else stays.
pub open spec fn ascii_lower(c: char) -> char {
    if 65 <= (c as u32) <= 90 {
        ((c as u32) + 32) as char
    } else {
        c
    }
}

/// `str::to_ascii_lowercase`, character by character.
pub open spec fn ascii_lowercase(s: Seq<char>) -> Seq<char> {
    s.map_values(|c: char| ascii_lower(c))
}

/// `str::eq_ignore_ascii_case`: equal once both sides are ASCII-lowercased.
pub open spec fn ascii_case_eq(a: Seq<char>, b: Seq<char>) -> bool {
    ascii_lowercase(a) == ascii_lowercase(b)
}

pub fn lower_ascii_char(c: char) -> (r: char)
    ensures
        r == ascii_lower(c),
{
    let u = c as u32;
    if 65 <= u && u <= 90 {
        let b = (u as u8) + 32;
        let r = b as char;
        assert(r as u32 == u + 32);
        r
    } else {
        c
    }
}

/// The ASCII-lowercased characters of `s`.
pub fn ascii_lowercase_chars(s: &[char]) -> (out: Vec<char>)
    ensures
        out@ == ascii_lowercase(s@),
{
    let mut out: Vec<char> = Vec::new();
    for i in 0..s.len()
        invariant
            out@ == ascii_lowercase(s@.take(i as int)),
    {
        out.push(lower_ascii_char(s[i]));
        assert(ascii_lowercase(s@.take(i + 1)) =~= ascii_lowercase(s@.take(i as int)).push(
            ascii_lower(s@[i as int]),
        ));
    }
    assert(s@.take(s@.len() as int) =~= s@);
    out
}

/// Whether `a` and `b` match ignoring ASCII case.
pub fn chars_eq_ignore_ascii_case(a: &[char], b: &[char]) -> (r: bool)
    ensures
        r == ascii_case_eq(a@, b@),
{
    if a.len() != b.len() {
        assert(ascii_lowercase(a@).len() != ascii_lowercase(b@).len());
        return false;
    }
    for i in 0..a.len()
        invariant
            a@.len() == b@.len(),
            forall|k: int| 0 <= k < i ==> ascii_lower(a@[k]) == ascii_lower(b@[k]),
    {
        if lower_ascii_char(a[i]) != lower_ascii_char(b[i]) {
            assert(ascii_lowercase(a@)[i as int] != ascii_lowercase(b@)[i as int]);
            return false;
        }
    }
    assert(ascii_lowercase(a@) =~= ascii_lowercase(b@));
    true
}

// ---------------------------------------------------------------------------
// File names and extensions
// ---------------------------------------------------------------------------

/// Index of the last `c` in `s`, or -1.
pub open spec fn last_of(s: Seq<char>, c: char) -> int
    decreases s.len(),
{
    if s.len() == 0 {
        -1
    } else if s.last() == c {
        s.len() - 1
    } else {
        last_of(s.drop_last(), c)
    }
}

pub proof fn lemma_last_of(s: Seq<char>, c: char)
    ensures
        -1 <= last_of(s, c) < s.len(),
        last_of(s, c) >= 0 ==> s[last_of(s, c)] == c,
        forall|j: int| last_of(s, c) < j < s.len() ==> s[j] != c,
    decreases s.len(),
{
    if s.len() > 0 && s.last() != c {
        lemma_last_of(s.drop_last(), c);
        assert forall|j: int| last_of(s, c) < j < s.len() implies s[j] != c by {
            if j < s.len() - 1 {
                assert(s[j] == s.drop_last()[j]);
            }
        }
    }
}

/// The last `c` is at `i` when `c` is there (or `i` is -1) and not after it.
proof fn lemma_last_of_at(s: Seq<char>, c: char, i: int)
    requires
        -1 <= i < s.len(),
        i >= 0 ==> s[i] == c,
        forall|j: int| i < j < s.len() ==> s[j] != c,
    ensures
        last_of(s, c) == i,
    decreases s.len(),
{
    if s.len() > 0 && i < s.len() - 1 {
        assert forall|j: int| i < j < s.drop_last().len() implies s.drop_last()[j] != c by {
            assert(s.drop_last()[j] == s[j]);
        }
        if i >= 0 {
            assert(s.drop_last()[i] == s[i]);
        }
        lemma_last_of_at(s.drop_last(), c, i);
    }
}

/// The last component of `name` read as a path, as `Path::file_name` gives
/// it with `/` as the separator: empty and `.` pieces at the end are passed
/// over, and there is none when nothing is left or the last piece is `..`.
pub open spec fn file_name(name: Seq<char>) -> Option<Seq<char>>
    decreases name.len(),
{
    let p = last_of(name, '/');
    let piece = name.skip(p + 1);
    if piece.len() == 0 || piece == seq!['.'] {
        if p < 0 || p >= name.len() {
            None
        } else {
            file_name(name.take(p))
        }
    } else if piece == seq!['.', '.'] {
        None
    } else {
        Some(piece)
    }
}

/// The extension of a single path component, as `Path::extension` splits
/// it: what follows the last `.`, unless there is no `.`, the only one
/// leads the component, or the component is `..`.
pub open spec fn dot_extension(f: Seq<char>) -> Option<Seq<char>> {
    let d = last_of(f, '.');
    if d <= 0 || f == seq!['.', '.'] {
        None
    } else {
        Some(f.skip(d + 1))
    }
}

/// The extension of a name read as a path, as `Path::extension` reads it:
/// the extension of its last component, when it has one.
pub open spec fn extension(name: Seq<char>) -> Option<Seq<char>> {
    match file_name(name) {
        Some(f) => dot_extension(f),
        None => None,
    }
}

/// ASCII lowercasing moves no `.` or `/`.
pub proof fn lemma_ascii_lowercase_keeps_marks(s: Seq<char>, c: char)
    requires
        c == '.' || c == '/',
    ensures
        last_of(ascii_lowercase(s), c) == last_of(s, c),
    decreases s.len(),
{
    let l = ascii_lowercase(s);
    if s.len() > 0 {
        assert(l.drop_last() =~= ascii_lowercase(s.drop_last()));
        lemma_ascii_lowercase_keeps_marks(s.drop_last(), c);
        assert(l.last() == ascii_lower(s.last()));
    }
}

/// Lowercasing twice is lowercasing once, and only `.` lowercases to `.`.
pub proof fn lemma_ascii_lowercase_shape(s: Seq<char>)
    ensures
        ascii_lowercase(ascii_lowercase(s)) == ascii_lowercase(s),
        ascii_lowercase(s) == seq!['.', '.'] <==> s == seq!['.', '.'],
        ascii_lowercase(s) == seq!['.'] <==> s == seq!['.'],
        ascii_lowercase(s).len() == s.len(),
{
    let l = ascii_lowercase(s);
    assert(ascii_lowercase(l) =~= l);
    if l == seq!['.', '.'] {
        assert(ascii_lower(s[0]) == '.' && ascii_lower(s[1]) == '.');
        assert(s =~= seq!['.', '.']);
    }
    if s == seq!['.', '.'] {
        assert(l =~= seq!['.', '.']);
    }
    if l == seq!['.'] {
        assert(seq!['.'][0] == '.');
        assert(l[0] == '.');
        assert(ascii_lower(s[0]) == '.');
        assert(s =~= seq!['.']);
    }
    if s == seq!['.'] {
        assert(l =~= seq!['.']);
    }
}

/// A name's last component, lowercased, is the last component of the name
/// lowercased.
pub proof fn lemma_file_name_lowercase(s: Seq<char>)
    ensures
        file_name(ascii_lowercase(s)) == match file_name(s) {
            Some(f) => Some(ascii_lowercase(f)),
            None => None,
        },
    decreases s.len(),
{
    let l = ascii_lowercase(s);
    lemma_ascii_lowercase_keeps_marks(s, '/');
    lemma_last_of(s, '/');
    let p = last_of(s, '/');
    let piece = s.skip(p + 1);
    assert(l.skip(p + 1) =~= ascii_lowercase(piece));
    lemma_ascii_lowercase_shape(piece);
    if (piece.len() == 0 || piece == seq!['.']) && p >= 0 {
        assert(l.take(p) =~= ascii_lowercase(s.take(p)));
        lemma_file_name_lowercase(s.take(p));
    }
}

/// The characters of `name` from `start` to `end`.
fn chars_between(name: &[char], start: usize, end: usize) -> (out: Vec<char>)
    requires
        start <= end <= name@.len(),
    ensures
        out@ == name@.subrange(start as int, end as int),
{
    let mut out: Vec<char> = Vec::new();
    let mut k: usize = start;
    while k < end
        invariant
            start <= k <= end <= name@.len(),
            out@ == name@.subrange(start as int, k as int),
        decreases end - k,
    {
        out.push(name[k]);
        k = k + 1;
        assert(out@ =~= name@.subrange(start as int, k as int));
    }
    out
}

/// The last component of the name `name` read as a path, if it has one.
pub fn file_name_of(name: &[char]) -> (out: Option<Vec<char>>)
    ensures
        match file_name(name@) {
            Some(f) => out matches Some(v) && v@ == f,
            None => out is None,
        },
{
    let mut end: usize = name.len();
    assert(name@.take(end as int) =~= name@);
    loop
        invariant
            end <= name@.len(),
            file_name(name@) == file_name(name@.take(end as int)),
        decreases end,
    {
        let ghost s = name@.take(end as int);
        let mut start: usize = end;
        while start > 0 && name[start - 1] != '/'
            invariant
                start <= end <= name@.len(),
                forall|k: int| start <= k < end ==> name@[k] != '/',
            decreases start,
        {
            start = start - 1;
        }
        proof {
            lemma_last_of_at(s, '/', start - 1);
            assert(s.skip(start as int) =~= name@.subrange(start as int, end as int));
        }
        let len = end - start;
        if len == 0 || (len == 1 && name[start] == '.') {
            proof {
                if len == 1 {
                    assert(s.skip(start as int) =~= seq!['.']);
                }
            }
            if start == 0 {
                return None;
            }
            proof {
                assert(s.take(start - 1) =~= name@.take(start - 1));
            }
            end = start - 1;
        } else if len == 2 && name[start] == '.' && name[start + 1] == '.' {
            assert(s.skip(start as int) =~= seq!['.', '.']);
            return None;
        } else {
            proof {
                if len == 1 {
                    assert(s.skip(start as int)[0] == name@[start as int]);
                    assert(seq!['.'][0] == '.');
                    assert(s.skip(start as int) != seq!['.']);
                }
                if len == 2 {
                    assert(s.skip(start as int)[0] != '.' || s.skip(start as int)[1] != '.');
                    assert(s.skip(start as int) != seq!['.', '.']);
                }
            }
            return Some(chars_between(name, start, end));
        }
    }
}

/// The extension of the single path component `f`, if it has one.
fn dot_extension_of(f: &[char]) -> (out: Option<Vec<char>>)
    ensures
        match dot_extension(f@) {
            Some(e) => out matches Some(v) && v@ == e,
            None => out is None,
        },
{
    let n = f.len();
    let mut j: usize = n;
    while j > 0 && f[j - 1] != '.'
        invariant
            j <= n == f@.len(),
            forall|k: int| j <= k < n ==> f@[k] != '.',
        decreases j,
    {
        j = j - 1;
    }
    proof {
        lemma_last_of_at(f@, '.', j - 1);
    }
    if j <= 1 {
        return None;
    }
    if n == 2 && f[0] == '.' && f[1] == '.' {
        assert(f@ =~= seq!['.', '.']);
        return None;
    }
    assert(f@ != seq!['.', '.']) by {
        if f@ =~= seq!['.', '.'] {
            assert(f@[0] == '.' && f@[1] == '.');
        }
    }
    let out = chars_between(f, j, n);
    assert(out@ =~= f@.skip(j as int));
    Some(out)
}

/// The extension of the name `name` read as a path, if it has one.
pub fn extension_of(name: &[char]) -> (out: Option<Vec<char>>)
    ensures
        match extension(name@) {
            Some(e) => out matches Some(v) && v@ == e,
            None => out is None,
        },
{
    match file_name_of(name) {
        Some(f) => dot_extension_of(f.as_slice()),
        None => None,
    }
}

// ---------------------------------------------------------------------------
// Unicode lowercase, and the keys names are ordered by
// ---------------------------------------------------------------------------

/// Unicode lowercase mapping of a character sequence, as `str::to_lowercase`
/// computes it.
pub uninterp spec fn lowercased(s: Seq<char>) -> Seq<char>;

/// `str::to_lowercase`. Its result is named `lowercased`; the Unicode tables
/// behind it are not restated here.
#[verifier::external_body]
pub(crate) fn to_lowercase(s: &str) -> (out: String)
    ensures
        out@ == lowercased(s@),
{
    s.to_lowercase()
}

/// The byte string a name sorts by: its lowercase form, UTF-8 encoded. `str`
/// orders lexicographically by these bytes.
pub open spec fn sort_bytes(s: Seq<char>) -> Seq<u8> {
    encode_utf8(lowercased(s))
}

pub fn sort_bytes_of(s: &str) -> (out: Vec<u8>)
    ensures
        out@ == sort_bytes(s@),
{
    let lower = to_lowercase(s);
    let bytes = lower.as_str().as_bytes();
    vstd::slice::slice_to_vec(bytes)
}

// ---------------------------------------------------------------------------
// Decimal numbers
// ---------------------------------------------------------------------------

pub open spec fn digit(d: nat) -> char {
    (48 + d) as char
}

/// The decimal digits of `n`, without leading zeros.
pub open spec fn decimal(n: nat) -> Seq<char>
    decreases n,
{
    if n < 10 {
        seq![digit(n)]
    } else {
        decimal(n / 10).push(digit(n % 10))
    }
}

fn digit_char(d: u64) -> (c: char)
    requires
        d < 10,
    ensures
        c == digit(d as nat),
{
    let b = (d as u8) + 48;
    let c = b as char;
    assert(c as u32 == d + 48);
    c
}

fn push_decimal(out: &mut Vec<char>, n: u64)
    ensures
        final(out)@ == old(out)@ + decimal(n as nat),
    decreases n,
{
    if n >= 10 {
        push_decimal(out, n / 10);
    }
    out.push(digit_char(n % 10));
    assert(final(out)@ =~= old(out)@ + decimal(n as nat));
}

/// `n` written in decimal, as `u64`'s `Display` writes it.
pub fn decimal_string(n: u64) -> (out: String)
    ensures
        out@ == decimal(n as nat),
{
    let mut cs: Vec<char> = Vec::new();
    push_decimal(&mut cs, n);
    assert(cs@ =~= decimal(n as nat));
    string_of(cs.as_slice())
}

} // verus!
