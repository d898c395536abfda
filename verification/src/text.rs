//! ASCII text utilities: case folding, case-insensitive comparison,
//! substring search and suffix tests, with exact specifications over
//! the character sequences.

use vstd::prelude::*;
use vstd::string::{StrSliceExecFns, StringExecFns};

verus! {

/// Code point of `c`, with ASCII upper-case letters folded to lower case.
pub open spec fn lower_code(c: char) -> int {
    if 65 <= c as int && c as int <= 90 {
        c as int + 32
    } else {
        c as int
    }
}

/// Case-folded view of a string: the sequence of folded code points.
pub open spec fn fold_seq(s: Seq<char>) -> Seq<int> {
    s.map_values(|c: char| lower_code(c))
}

/// Two strings are equal up to ASCII case.
pub open spec fn eq_ignore_case(a: Seq<char>, b: Seq<char>) -> bool {
    fold_seq(a) == fold_seq(b)
}

/// `c` upper-cased if it is an ASCII lower-case letter.
pub open spec fn upper_char(c: char) -> char {
    if 97 <= c as int && c as int <= 122 {
        (c as int - 32) as char
    } else {
        c
    }
}

/// `c` lower-cased if it is an ASCII upper-case letter.
pub open spec fn lower_char(c: char) -> char {
    if 65 <= c as int && c as int <= 90 {
        (c as int + 32) as char
    } else {
        c
    }
}

pub open spec fn upper_seq(s: Seq<char>) -> Seq<char> {
    s.map_values(|c: char| upper_char(c))
}

pub open spec fn lower_seq(s: Seq<char>) -> Seq<char> {
    s.map_values(|c: char| lower_char(c))
}

/// `n` occurs in `h` starting at position `i`.
pub open spec fn occurs_at(h: Seq<char>, n: Seq<char>, i: int) -> bool {
    0 <= i && i + n.len() <= h.len() && h.subrange(i, i + n.len()) == n
}

/// `n` occurs somewhere in `h`.
pub open spec fn contains_seq(h: Seq<char>, n: Seq<char>) -> bool {
    exists|i: int| occurs_at(h, n, i)
}

/// `suf` is a suffix of `s`.
pub open spec fn is_suffix_of(suf: Seq<char>, s: Seq<char>) -> bool {
    suf.len() <= s.len() && s.subrange(s.len() - suf.len(), s.len() as int) == suf
}

/// Index of the first occurrence of `n` in `h`, or -1 when `n` does not
/// occur in `h`.
pub open spec fn find_first(h: Seq<char>, n: Seq<char>) -> int
    decreases h.len(),
{
    if occurs_at(h, n, 0) {
        0
    } else if h.len() == 0 {
        -1
    } else {
        let m = find_first(h.skip(1), n);
        if m == -1 {
            -1
        } else {
            m + 1
        }
    }
}

/// Occurrences in the tail of `h` are occurrences in `h`, shifted by one.
proof fn lemma_occurs_shift(h: Seq<char>, n: Seq<char>, i: int)
    requires
        h.len() > 0,
        0 <= i,
    ensures
        occurs_at(h.skip(1), n, i) == occurs_at(h, n, i + 1),
{
    if i + n.len() <= h.len() - 1 {
        assert(h.skip(1).subrange(i, i + n.len() as int) =~= h.subrange(i + 1, i + 1 + n.len()));
    }
}

/// A witness to the first occurrence determines `find_first`.
pub proof fn lemma_find_first_is(h: Seq<char>, n: Seq<char>, i: int)
    requires
        occurs_at(h, n, i),
        forall|j: int| 0 <= j < i ==> !occurs_at(h, n, j),
    ensures
        find_first(h, n) == i,
    decreases h.len(),
{
    if i == 0 {
    } else {
        assert(!occurs_at(h, n, 0));
        assert(h.len() > 0);
        lemma_occurs_shift(h, n, i - 1);
        assert forall|j: int| 0 <= j < i - 1 implies !occurs_at(h.skip(1), n, j) by {
            lemma_occurs_shift(h, n, j);
        }
        lemma_find_first_is(h.skip(1), n, i - 1);
    }
}

/// When `n` does not occur in `h`, `find_first` is -1.
pub proof fn lemma_find_first_none(h: Seq<char>, n: Seq<char>)
    requires
        !contains_seq(h, n),
    ensures
        find_first(h, n) == -1,
    decreases h.len(),
{
    assert(!occurs_at(h, n, 0));
    if h.len() > 0 {
        assert forall|j: int| 0 <= j implies !occurs_at(h.skip(1), n, j) by {
            lemma_occurs_shift(h, n, j);
            assert(!occurs_at(h, n, j + 1));
        }
        lemma_find_first_none(h.skip(1), n);
    }
}

/// `find_first` points at the first occurrence when there is one.
pub proof fn lemma_find_first(h: Seq<char>, n: Seq<char>)
    ensures
        find_first(h, n) == -1 ==> !contains_seq(h, n),
        find_first(h, n) != -1 ==> 0 <= find_first(h, n) && occurs_at(h, n, find_first(h, n))
            && forall|j: int| 0 <= j < find_first(h, n) ==> !occurs_at(h, n, j),
    decreases h.len(),
{
    if occurs_at(h, n, 0) {
    } else if h.len() == 0 {
        assert forall|i: int| !occurs_at(h, n, i) by {
            if 0 <= i && i + n.len() <= h.len() {
                assert(i == 0 && n.len() == 0);
            }
        }
    } else {
        lemma_find_first(h.skip(1), n);
        let m = find_first(h.skip(1), n);
        if m == -1 {
            assert forall|i: int| !occurs_at(h, n, i) by {
                if 0 < i {
                    lemma_occurs_shift(h, n, i - 1);
                }
            }
        } else {
            lemma_occurs_shift(h, n, m);
            assert forall|j: int| 0 <= j < m + 1 implies !occurs_at(h, n, j) by {
                if 0 < j {
                    lemma_occurs_shift(h, n, j - 1);
                }
            }
        }
    }
}

/// Index of the first occurrence of the character `c` in `s`, or -1.
pub open spec fn char_pos(s: Seq<char>, c: char) -> int
    decreases s.len(),
{
    if s.len() == 0 {
        -1
    } else if s[0] == c {
        0
    } else {
        let m = char_pos(s.skip(1), c);
        if m == -1 {
            -1
        } else {
            m + 1
        }
    }
}

/// A witness to the first occurrence determines `char_pos`.
proof fn lemma_char_pos_is(s: Seq<char>, c: char, i: int)
    requires
        0 <= i < s.len(),
        s[i] == c,
        forall|j: int| 0 <= j < i ==> s[j] != c,
    ensures
        char_pos(s, c) == i,
    decreases s.len(),
{
    if i == 0 {
    } else {
        assert(forall|j: int| 0 <= j < i - 1 ==> s.skip(1)[j] == s[j + 1]);
        lemma_char_pos_is(s.skip(1), c, i - 1);
    }
}

/// When `c` does not occur in `s`, `char_pos` is -1.
proof fn lemma_char_pos_none(s: Seq<char>, c: char)
    requires
        forall|j: int| 0 <= j < s.len() ==> s[j] != c,
    ensures
        char_pos(s, c) == -1,
    decreases s.len(),
{
    if s.len() > 0 {
        assert(forall|j: int| 0 <= j < s.len() - 1 ==> s.skip(1)[j] == s[j + 1]);
        lemma_char_pos_none(s.skip(1), c);
    }
}

/// `char_pos` points at the first occurrence when there is one.
pub proof fn lemma_char_pos(s: Seq<char>, c: char)
    ensures
        char_pos(s, c) == -1 ==> forall|j: int| 0 <= j < s.len() ==> s[j] != c,
        char_pos(s, c) != -1 ==> 0 <= char_pos(s, c) < s.len() && s[char_pos(s, c)] == c
            && forall|j: int| 0 <= j < char_pos(s, c) ==> s[j] != c,
    decreases s.len(),
{
    if s.len() == 0 {
    } else if s[0] == c {
    } else {
        lemma_char_pos(s.skip(1), c);
        assert(forall|j: int| 1 <= j < s.len() ==> s[j] == s.skip(1)[j - 1]);
    }
}

/// Position of the first occurrence of the character `c` in `s`, if any.
pub fn find_char(s: &str, c: char) -> (r: Option<usize>)
    ensures
        match r {
            Some(i) => i as int == char_pos(s@, c) && i < s@.len(),
            None => char_pos(s@, c) == -1,
        },
{
    let len = s.unicode_len();
    for i in 0..len
        invariant
            len == s@.len(),
            forall|j: int| 0 <= j < i ==> s@[j] != c,
    {
        if s.get_char(i) == c {
            proof {
                lemma_char_pos_is(s@, c, i as int);
            }
            return Some(i);
        }
    }
    proof {
        lemma_char_pos_none(s@, c);
    }
    None
}

/// The pieces of `s` between occurrences of the separator `c`: splitting
/// never yields an empty list, and separators are not kept.
pub open spec fn split_spec(s: Seq<char>, c: char) -> Seq<Seq<char>>
    decreases s.len(),
{
    let p = char_pos(s, c);
    if p < 0 || p >= s.len() {
        seq![s]
    } else {
        seq![s.take(p)] + split_spec(s.skip(p + 1), c)
    }
}

/// Splits `s` at each occurrence of the character `c`.
pub fn split_char(s: &str, c: char) -> (r: Vec<String>)
    ensures
        crate::records::views(r@) == split_spec(s@, c),
    decreases s@.len(),
{
    let len = s.unicode_len();
    match find_char(s, c) {
        None => {
            let mut v: Vec<String> = Vec::new();
            v.push(String::from_str(s));
            proof {
                assert(crate::records::views(v@) =~= split_spec(s@, c));
            }
            v
        },
        Some(p) => {
            proof {
                lemma_char_pos(s@, c);
            }
            let head = s.substring_char(0, p);
            let tail = s.substring_char(p + 1, len);
            proof {
                assert(head@ =~= s@.take(p as int));
                assert(tail@ =~= s@.skip(p + 1));
            }
            let mut v: Vec<String> = Vec::new();
            v.push(String::from_str(head));
            let mut rest = split_char(tail, c);
            v.append(&mut rest);
            proof {
                assert(crate::records::views(v@) =~= seq![s@.take(p as int)] + split_spec(
                    s@.skip(p + 1),
                    c,
                ));
            }
            v
        },
    }
}

/// An ASCII whitespace character.
pub open spec fn is_space(c: char) -> bool {
    c == ' ' || c == '\t' || c == '\r' || c == '\n'
}

/// `s` with leading ASCII whitespace removed.
pub open spec fn trim_start_spec(s: Seq<char>) -> Seq<char>
    decreases s.len(),
{
    if s.len() > 0 && is_space(s[0]) {
        trim_start_spec(s.skip(1))
    } else {
        s
    }
}

/// `s` with trailing ASCII whitespace removed.
pub open spec fn trim_end_spec(s: Seq<char>) -> Seq<char>
    decreases s.len(),
{
    if s.len() > 0 && is_space(s.last()) {
        trim_end_spec(s.drop_last())
    } else {
        s
    }
}

/// `s` with leading and trailing ASCII whitespace removed.
pub open spec fn trim_spec(s: Seq<char>) -> Seq<char> {
    trim_end_spec(trim_start_spec(s))
}

/// Relies on `String::push`: appends one character to the string.
#[verifier::external_body]
pub fn push_char(s: &mut String, c: char)
    ensures
        final(s)@ == old(s)@.push(c),
{
    s.push(c);
}

/// Folded code point of `c`, as executable arithmetic.
pub fn fold_code(c: char) -> (r: u32)
    ensures
        r as int == lower_code(c),
{
    let v = c as u32;
    if 65 <= v && v <= 90 {
        v + 32
    } else {
        v
    }
}

/// Case-insensitive equality of two strings (ASCII case only).
pub fn str_eq_ignore_ascii_case(a: &str, b: &str) -> (r: bool)
    ensures
        r == eq_ignore_case(a@, b@),
{
    let alen = a.unicode_len();
    let blen = b.unicode_len();
    if alen != blen {
        assert(fold_seq(a@).len() != fold_seq(b@).len());
        return false;
    }
    for i in 0..alen
        invariant
            alen == a@.len(),
            blen == b@.len(),
            alen == blen,
            forall|k: int| 0 <= k < i ==> lower_code(a@[k]) == lower_code(b@[k]),
    {
        let ca = a.get_char(i);
        let cb = b.get_char(i);
        if fold_code(ca) != fold_code(cb) {
            assert(fold_seq(a@)[i as int] != fold_seq(b@)[i as int]);
            return false;
        }
    }
    proof {
        assert(fold_seq(a@) =~= fold_seq(b@));
    }
    true
}

/// Upper-cases the ASCII letters of `s`.
pub fn to_ascii_upper(s: &str) -> (r: String)
    ensures
        r@ == upper_seq(s@),
{
    let len = s.unicode_len();
    let mut out = String::new();
    for i in 0..len
        invariant
            len == s@.len(),
            out@ == upper_seq(s@.take(i as int)),
    {
        let c = s.get_char(i);
        let code = c as u32;
        let u: char = if 97 <= code && code <= 122 {
            ((code - 32) as u8) as char
        } else {
            c
        };
        assert(u == upper_char(s@[i as int]));
        push_char(&mut out, u);
        proof {
            assert(upper_seq(s@.take(i + 1)) =~= upper_seq(s@.take(i as int)).push(
                upper_char(s@[i as int]),
            ));
        }
    }
    proof {
        assert(s@.take(len as int) =~= s@);
    }
    out
}

/// Lower-cases the ASCII letters of `s`.
pub fn to_ascii_lower(s: &str) -> (r: String)
    ensures
        r@ == lower_seq(s@),
{
    let len = s.unicode_len();
    let mut out = String::new();
    for i in 0..len
        invariant
            len == s@.len(),
            out@ == lower_seq(s@.take(i as int)),
    {
        let c = s.get_char(i);
        let code = c as u32;
        let l: char = if 65 <= code && code <= 90 {
            ((code + 32) as u8) as char
        } else {
            c
        };
        assert(l == lower_char(s@[i as int]));
        push_char(&mut out, l);
        proof {
            assert(lower_seq(s@.take(i + 1)) =~= lower_seq(s@.take(i as int)).push(
                lower_char(s@[i as int]),
            ));
        }
    }
    proof {
        assert(s@.take(len as int) =~= s@);
    }
    out
}

/// Whether `n` occurs in `h` starting at position `i`.
fn occurs_here(h: &str, n: &str, i: usize) -> (r: bool)
    requires
        i + n@.len() <= h@.len(),
        h@.len() <= usize::MAX,
    ensures
        r == occurs_at(h@, n@, i as int),
{
    let nlen = n.unicode_len();
    for k in 0..nlen
        invariant
            nlen == n@.len(),
            i + n@.len() <= h@.len(),
            h@.len() <= usize::MAX,
            forall|m: int| 0 <= m < k ==> h@[i + m] == n@[m],
    {
        if h.get_char(i + k) != n.get_char(k) {
            assert(h@.subrange(i as int, i + n@.len())[k as int] != n@[k as int]);
            return false;
        }
    }
    proof {
        assert(h@.subrange(i as int, i + n@.len()) =~= n@);
    }
    true
}

/// Position of the first occurrence of `n` in `h`, if any.
pub fn find_str(h: &str, n: &str) -> (r: Option<usize>)
    ensures
        match r {
            Some(i) => i as int == find_first(h@, n@) && occurs_at(h@, n@, i as int)
                && forall|j: int| 0 <= j < i ==> !occurs_at(h@, n@, j),
            None => !contains_seq(h@, n@) && find_first(h@, n@) == -1,
        },
{
    let hlen = h.unicode_len();
    let nlen = n.unicode_len();
    if nlen > hlen {
        proof {
            assert(!contains_seq(h@, n@));
            lemma_find_first_none(h@, n@);
        }
        return None;
    }
    let last = hlen - nlen;
    let mut i: usize = 0;
    while i <= last
        invariant
            hlen == h@.len(),
            nlen == n@.len(),
            nlen <= hlen,
            last == hlen - nlen,
            i <= last + 1,
            forall|j: int| 0 <= j < i ==> !occurs_at(h@, n@, j),
        decreases last + 1 - i,
    {
        if occurs_here(h, n, i) {
            proof {
                lemma_find_first_is(h@, n@, i as int);
            }
            return Some(i);
        }
        if i == last {
            proof {
                assert(forall|j: int| occurs_at(h@, n@, j) ==> 0 <= j <= last);
                assert(!contains_seq(h@, n@));
                lemma_find_first_none(h@, n@);
            }
            return None;
        }
        i = i + 1;
    }
    proof {
        assert(forall|j: int| occurs_at(h@, n@, j) ==> 0 <= j <= last);
        assert(!contains_seq(h@, n@));
        lemma_find_first_none(h@, n@);
    }
    None
}

/// Whether `n` occurs somewhere in `h`.
pub fn str_contains(h: &str, n: &str) -> (r: bool)
    ensures
        r == contains_seq(h@, n@),
{
    match find_str(h, n) {
        Some(_) => true,
        None => false,
    }
}

/// Whether `suf` is a suffix of `s`.
pub fn str_ends_with(s: &str, suf: &str) -> (r: bool)
    ensures
        r == is_suffix_of(suf@, s@),
{
    let slen = s.unicode_len();
    let suflen = suf.unicode_len();
    if suflen > slen {
        return false;
    }
    occurs_here(s, suf, slen - suflen)
}

/// Exact equality of two strings.
pub fn str_eq(a: &str, b: &str) -> (r: bool)
    ensures
        r == (a@ == b@),
{
    let alen = a.unicode_len();
    let blen = b.unicode_len();
    if alen != blen {
        return false;
    }
    for i in 0..alen
        invariant
            alen == a@.len(),
            blen == b@.len(),
            alen == blen,
            forall|k: int| 0 <= k < i ==> a@[k] == b@[k],
    {
        if a.get_char(i) != b.get_char(i) {
            return false;
        }
    }
    proof {
        assert(a@ =~= b@);
    }
    true
}

/// Removes leading and trailing ASCII whitespace.
pub fn trim_str(s: &str) -> (r: String)
    ensures
        r@ == trim_spec(s@),
{
    let len = s.unicode_len();
    proof {
        assert(s@.skip(0) =~= s@);
    }
    let mut a: usize = 0;
    while a < len && is_space_exec(s.get_char(a))
        invariant
            len == s@.len(),
            a <= len,
            trim_start_spec(s@) == trim_start_spec(s@.skip(a as int)),
        decreases len - a,
    {
        proof {
            assert(s@.skip(a as int).skip(1) =~= s@.skip(a + 1));
        }
        a = a + 1;
    }
    proof {
        if a < len {
            assert(!is_space(s@.skip(a as int)[0]));
        }
        assert(trim_start_spec(s@.skip(a as int)) == s@.skip(a as int));
    }
    proof {
        assert(s@.subrange(a as int, len as int) =~= s@.skip(a as int));
    }
    let mut b: usize = len;
    while b > a && is_space_exec(s.get_char(b - 1))
        invariant
            len == s@.len(),
            a <= b <= len,
            trim_start_spec(s@) == s@.skip(a as int),
            trim_end_spec(s@.skip(a as int)) == trim_end_spec(s@.subrange(a as int, b as int)),
        decreases b,
    {
        proof {
            assert(s@.subrange(a as int, b as int).drop_last() =~= s@.subrange(a as int, b - 1));
            assert(s@.subrange(a as int, b as int).last() == s@[b - 1]);
        }
        b = b - 1;
    }
    proof {
        if b > a {
            assert(s@.subrange(a as int, b as int).last() == s@[b - 1]);
        }
        assert(trim_end_spec(s@.subrange(a as int, b as int)) == s@.subrange(a as int, b as int));
    }
    let out = s.substring_char(a, b);
    String::from_str(out)
}

/// Whether `c` is ASCII whitespace.
fn is_space_exec(c: char) -> (r: bool)
    ensures
        r == is_space(c),
{
    c == ' ' || c == '\t' || c == '\r' || c == '\n'
}

} // verus!
