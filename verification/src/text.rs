//! Character-level string toolkit. Paths, ids, specifiers and diff lines are
//! all handled as sequences of `char`; each operation here states what it does
//! over that view, so callers can state their own contracts the same way.

use vstd::prelude::*;

verus! {

// ----------------------------------------------------------------- specs ---

/// `p` occurs in `s` starting at index `i`.
pub open spec fn occurs_at(s: Seq<char>, p: Seq<char>, i: int) -> bool {
    0 <= i && i + p.len() <= s.len() && s.subrange(i, i + p.len()) == p
}

pub open spec fn has_prefix(s: Seq<char>, p: Seq<char>) -> bool {
    occurs_at(s, p, 0)
}

pub open spec fn has_suffix(s: Seq<char>, p: Seq<char>) -> bool {
    p.len() <= s.len() && occurs_at(s, p, s.len() - p.len())
}

/// First occurrence of `p` in `s` at or after `i`.
pub open spec fn find_from(s: Seq<char>, p: Seq<char>, i: int) -> Option<int>
    decreases s.len() + 1 - i,
{
    if i < 0 || i + p.len() > s.len() {
        None
    } else if occurs_at(s, p, i) {
        Some(i)
    } else {
        find_from(s, p, i + 1)
    }
}

/// First occurrence of `p` in `s`.
pub open spec fn find(s: Seq<char>, p: Seq<char>) -> Option<int> {
    find_from(s, p, 0)
}

/// First index at or after `i` that holds `c`.
pub open spec fn find_char_from(s: Seq<char>, c: char, i: int) -> Option<int>
    decreases s.len() - i,
{
    if i < 0 || i >= s.len() {
        None
    } else if s[i] == c {
        Some(i)
    } else {
        find_char_from(s, c, i + 1)
    }
}

pub open spec fn find_char(s: Seq<char>, c: char) -> Option<int> {
    find_char_from(s, c, 0)
}

/// Last index below `n` that holds `c`.
pub open spec fn rfind_char_before(s: Seq<char>, c: char, n: int) -> Option<int>
    decreases n,
{
    if n <= 0 {
        None
    } else if s[n - 1] == c {
        Some(n - 1)
    } else {
        rfind_char_before(s, c, n - 1)
    }
}

pub open spec fn rfind_char(s: Seq<char>, c: char) -> Option<int> {
    rfind_char_before(s, c, s.len() as int)
}

/// `s` with every leading copy of `p` removed (`trim_start_matches`).
pub open spec fn strip_prefixes(s: Seq<char>, p: Seq<char>) -> Seq<char>
    decreases s.len(),
{
    if p.len() > 0 && has_prefix(s, p) {
        strip_prefixes(s.subrange(p.len() as int, s.len() as int), p)
    } else {
        s
    }
}

/// `s` with every trailing `c` removed (`trim_end_matches`).
pub open spec fn strip_trailing(s: Seq<char>, c: char) -> Seq<char>
    decreases s.len(),
{
    if s.len() > 0 && s.last() == c {
        strip_trailing(s.drop_last(), c)
    } else {
        s
    }
}

/// Pieces of `s` between occurrences of `c` (`str::split` with a char).
pub open spec fn split_char(s: Seq<char>, c: char) -> Seq<Seq<char>>
    decreases s.len(),
{
    if s.len() == 0 {
        seq![Seq::<char>::empty()]
    } else {
        let rest = split_char(s.drop_last(), c);
        if s.last() == c {
            rest.push(Seq::<char>::empty())
        } else {
            rest.update(rest.len() - 1, rest.last().push(s.last()))
        }
    }
}

/// A line with one trailing carriage return removed.
pub open spec fn strip_cr(p: Seq<char>) -> Seq<char> {
    if p.len() > 0 && p.last() == '\r' {
        p.drop_last()
    } else {
        p
    }
}

/// `str::lines`: split at `\n`; a `\r` before the `\n` is dropped; a final
/// empty piece (text ending in `\n`, or empty text) is not a line.
pub open spec fn lines(s: Seq<char>) -> Seq<Seq<char>> {
    let parts = split_char(s, '\n');
    let ended = parts.drop_last().map_values(|p: Seq<char>| strip_cr(p));
    if parts.last().len() == 0 {
        ended
    } else {
        ended.push(parts.last())
    }
}

/// Pieces joined with `sep` between them.
pub open spec fn join(parts: Seq<Seq<char>>, sep: Seq<char>) -> Seq<char>
    decreases parts.len(),
{
    if parts.len() == 0 {
        Seq::empty()
    } else if parts.len() == 1 {
        parts[0]
    } else {
        join(parts.drop_last(), sep) + sep + parts.last()
    }
}

/// The characters Unicode calls `White_Space` (what `char::is_whitespace` tests).
pub open spec fn is_ws(c: char) -> bool {
    ||| ('\u{9}' <= c && c <= '\u{d}')
    ||| c == ' '
    ||| c == '\u{85}'
    ||| c == '\u{a0}'
    ||| c == '\u{1680}'
    ||| ('\u{2000}' <= c && c <= '\u{200a}')
    ||| c == '\u{2028}'
    ||| c == '\u{2029}'
    ||| c == '\u{202f}'
    ||| c == '\u{205f}'
    ||| c == '\u{3000}'
}

pub open spec fn trim_start_ws(s: Seq<char>) -> Seq<char>
    decreases s.len(),
{
    if s.len() > 0 && is_ws(s[0]) {
        trim_start_ws(s.subrange(1, s.len() as int))
    } else {
        s
    }
}

pub open spec fn trim_end_ws(s: Seq<char>) -> Seq<char>
    decreases s.len(),
{
    if s.len() > 0 && is_ws(s.last()) {
        trim_end_ws(s.drop_last())
    } else {
        s
    }
}

pub open spec fn trim_ws(s: Seq<char>) -> Seq<char> {
    trim_end_ws(trim_start_ws(s))
}

pub open spec fn ascii_lower_char(c: char) -> char {
    if 'A' <= c && c <= 'Z' {
        ((c as u32) + 32) as char
    } else {
        c
    }
}

pub open spec fn ascii_lower(s: Seq<char>) -> Seq<char> {
    s.map_values(|c: char| ascii_lower_char(c))
}

pub open spec fn ascii_upper_char(c: char) -> char {
    if 'a' <= c && c <= 'z' {
        ((c as u32) - 32) as char
    } else {
        c
    }
}

pub open spec fn ascii_upper(s: Seq<char>) -> Seq<char> {
    s.map_values(|c: char| ascii_upper_char(c))
}

pub open spec fn is_ascii_alnum(c: char) -> bool {
    ('0' <= c && c <= '9') || ('a' <= c && c <= 'z') || ('A' <= c && c <= 'Z')
}

/// `p` occurs somewhere in `s`.
pub open spec fn contains_seq(s: Seq<char>, p: Seq<char>) -> bool {
    find(s, p) is Some
}

pub open spec fn digit(d: nat) -> char {
    if d == 0 {
        '0'
    } else if d == 1 {
        '1'
    } else if d == 2 {
        '2'
    } else if d == 3 {
        '3'
    } else if d == 4 {
        '4'
    } else if d == 5 {
        '5'
    } else if d == 6 {
        '6'
    } else if d == 7 {
        '7'
    } else if d == 8 {
        '8'
    } else {
        '9'
    }
}

/// Decimal digits of `n`, most significant first, no leading zeros.
pub open spec fn decimal(n: nat) -> Seq<char>
    decreases n,
{
    if n < 10 {
        seq![digit(n)]
    } else {
        decimal(n / 10).push(digit(n % 10))
    }
}

/// Decimal text of a signed integer: `-` then the digits of its magnitude.
pub open spec fn signed_decimal(n: int) -> Seq<char> {
    if n < 0 {
        seq!['-'] + decimal((-n) as nat)
    } else {
        decimal(n as nat)
    }
}

pub open spec fn is_digit(c: char) -> bool {
    '0' <= c && c <= '9'
}

pub open spec fn all_digits(s: Seq<char>) -> bool {
    forall|i: int| 0 <= i < s.len() ==> is_digit(#[trigger] s[i])
}

/// Value of a run of decimal digits, most significant first.
pub open spec fn digits_value(s: Seq<char>) -> int
    decreases s.len(),
{
    if s.len() == 0 {
        0
    } else {
        digits_value(s.drop_last()) * 10 + (s.last() as int - '0' as int)
    }
}

/// `str::parse::<i64>`: an optional `+` or `-`, then one or more decimal
/// digits, with the value in range.
pub open spec fn parse_i64(s: Seq<char>) -> Option<int> {
    let signed = s.len() > 0 && (s[0] == '-' || s[0] == '+');
    let ds = if signed {
        s.subrange(1, s.len() as int)
    } else {
        s
    };
    let v = if s.len() > 0 && s[0] == '-' {
        -digits_value(ds)
    } else {
        digits_value(ds)
    };
    if ds.len() == 0 || !all_digits(ds) {
        None
    } else if i64::MIN <= v && v <= i64::MAX {
        Some(v)
    } else {
        None
    }
}

/// Views of a sequence of character vectors.
pub open spec fn views(v: Seq<Vec<char>>) -> Seq<Seq<char>> {
    v.map_values(|x: Vec<char>| x@)
}

/// Views of a sequence of strings.
pub open spec fn str_views(v: Seq<String>) -> Seq<Seq<char>> {
    v.map_values(|x: String| x@)
}

// ---------------------------------------------------------------- lemmas ---

pub proof fn lemma_find_char_from_range(s: Seq<char>, c: char, i: int)
    requires
        0 <= i,
    ensures
        find_char_from(s, c, i) matches Some(j) ==> i <= j < s.len() && s[j] == c && (forall|
            k: int,
        | i <= k < j ==> s[k] != c),
        find_char_from(s, c, i) is None ==> forall|k: int| i <= k < s.len() ==> s[k] != c,
    decreases s.len() - i,
{
    if i < 0 || i >= s.len() {
    } else if s[i] == c {
    } else {
        lemma_find_char_from_range(s, c, i + 1);
    }
}

pub proof fn lemma_find_from_range(s: Seq<char>, p: Seq<char>, i: int)
    requires
        0 <= i,
    ensures
        find_from(s, p, i) matches Some(j) ==> i <= j && occurs_at(s, p, j) && (forall|k: int|
            i <= k < j ==> !occurs_at(s, p, k)),
        find_from(s, p, i) is None ==> forall|k: int| i <= k ==> !occurs_at(s, p, k),
    decreases s.len() + 1 - i,
{
    if i < 0 || i + p.len() > s.len() {
    } else if occurs_at(s, p, i) {
    } else {
        lemma_find_from_range(s, p, i + 1);
    }
}

pub proof fn lemma_rfind_char_range(s: Seq<char>, c: char, n: int)
    requires
        n <= s.len(),
    ensures
        rfind_char_before(s, c, n) matches Some(j) ==> 0 <= j < n && s[j] == c && (forall|k: int|
            j < k < n ==> s[k] != c),
        rfind_char_before(s, c, n) is None ==> forall|k: int| 0 <= k < n ==> s[k] != c,
    decreases n,
{
    if n <= 0 {
    } else if s[n - 1] == c {
    } else {
        lemma_rfind_char_range(s, c, n - 1);
    }
}

pub proof fn lemma_digits_value_prefix(s: Seq<char>, k: int)
    requires
        all_digits(s),
        0 <= k <= s.len(),
    ensures
        0 <= digits_value(s.take(k)) <= digits_value(s),
    decreases s.len(),
{
    if k == s.len() {
        assert(s.take(k) =~= s);
        if s.len() > 0 {
            lemma_digits_value_prefix(s.drop_last(), 0);
        } else {
        }
        lemma_digits_value_nonneg(s);
    } else {
        assert(s.take(k) =~= s.drop_last().take(k));
        lemma_digits_value_prefix(s.drop_last(), k);
        assert(is_digit(s[s.len() - 1]));
    }
}

pub proof fn lemma_digits_value_nonneg(s: Seq<char>)
    requires
        all_digits(s),
    ensures
        digits_value(s) >= 0,
    decreases s.len(),
{
    if s.len() > 0 {
        lemma_digits_value_nonneg(s.drop_last());
        assert(is_digit(s[s.len() - 1]));
    }
}

pub proof fn lemma_split_char_nonempty(s: Seq<char>, c: char)
    ensures
        split_char(s, c).len() >= 1,
    decreases s.len(),
{
    if s.len() > 0 {
        lemma_split_char_nonempty(s.drop_last(), c);
    }
}

// ------------------------------------------------------------------ exec ---

/// Calls `String::push`: the string gains `c` at its end.
#[verifier::external_body]
pub fn push_char(s: &mut String, c: char)
    ensures
        final(s)@ == old(s)@.push(c),
{
    s.push(c);
}

// What `char::is_alphanumeric` answers: Unicode `Alphabetic` or `Numeric`.
pub uninterp spec fn alphanumeric(c: char) -> bool;

// What `char::is_uppercase` answers: Unicode `Uppercase`.
pub uninterp spec fn uppercase(c: char) -> bool;

// What `char::is_lowercase` answers: Unicode `Lowercase`.
pub uninterp spec fn lowercase(c: char) -> bool;

// What `char::is_numeric` answers: Unicode general categories `Nd`, `Nl`, `No`.
pub uninterp spec fn numeric(c: char) -> bool;

/// Calls `char::is_alphanumeric`; the Unicode tables behind it are not
/// restated, only named (`alphanumeric`): the answer depends on the character
/// alone.
#[verifier::external_body]
pub(crate) fn is_alphanumeric(c: char) -> (r: bool)
    ensures
        r == alphanumeric(c),
{
    c.is_alphanumeric()
}

/// Calls `char::is_uppercase`, named `uppercase`.
#[verifier::external_body]
pub(crate) fn is_uppercase(c: char) -> (r: bool)
    ensures
        r == uppercase(c),
{
    c.is_uppercase()
}

/// Calls `char::is_lowercase`, named `lowercase`.
#[verifier::external_body]
pub(crate) fn is_lowercase(c: char) -> (r: bool)
    ensures
        r == lowercase(c),
{
    c.is_lowercase()
}

/// Calls `char::is_numeric`, named `numeric`.
#[verifier::external_body]
pub(crate) fn is_numeric(c: char) -> (r: bool)
    ensures
        r == numeric(c),
{
    c.is_numeric()
}

/// The characters of `s`, in order.
pub fn chars_of(s: &str) -> (v: Vec<char>)
    ensures
        v@ == s@,
{
    let mut v: Vec<char> = Vec::new();
    for c in it: s.chars()
        invariant
            v@ == it.seq().take(it.index() as int),
            it.seq() == s@,
    {
        v.push(c);
    }
    v
}

/// A string holding exactly the characters of `v`.
pub fn string_of(v: &[char]) -> (s: String)
    ensures
        s@ == v@,
{
    let mut s = String::new();
    let mut i: usize = 0;
    while i < v.len()
        invariant
            i <= v.len(),
            s@ == v@.take(i as int),
        decreases v.len() - i,
    {
        push_char(&mut s, v[i]);
        assert(v@.take(i as int).push(v@[i as int]) =~= v@.take(i + 1));
        i += 1;
    }
    assert(v@.take(v.len() as int) =~= v@);
    s
}

/// A copy of a string (same characters).
pub fn copy_string(s: &String) -> (r: String)
    ensures
        r@ == s@,
{
    s.clone()
}

/// Text of a string literal or slice, owned.
pub fn owned(s: &str) -> (r: String)
    ensures
        r@ == s@,
{
    let v = chars_of(s);
    string_of(&v)
}

/// Do two character sequences hold the same characters?
pub fn seq_eq(a: &[char], b: &[char]) -> (r: bool)
    ensures
        r == (a@ == b@),
{
    if a.len() != b.len() {
        return false;
    }
    let mut i: usize = 0;
    while i < a.len()
        invariant
            a.len() == b.len(),
            i <= a.len(),
            forall|k: int| 0 <= k < i ==> a@[k] == b@[k],
        decreases a.len() - i,
    {
        if a[i] != b[i] {
            return false;
        }
        i += 1;
    }
    assert(a@ =~= b@);
    true
}

/// Do a string and a literal hold the same characters?
pub fn text_is(s: &str, lit: &str) -> (r: bool)
    ensures
        r == (s@ == lit@),
{
    let a = chars_of(s);
    let b = chars_of(lit);
    seq_eq(&a, &b)
}

/// Does `p` occur in `s` at `i`?
pub fn occurs_at_exec(s: &[char], p: &[char], i: usize) -> (r: bool)
    ensures
        r == occurs_at(s@, p@, i as int),
{
    if i > s.len() || p.len() > s.len() - i {
        return false;
    }
    let mut k: usize = 0;
    while k < p.len()
        invariant
            i + p.len() <= s.len(),
            k <= p.len(),
            forall|j: int| 0 <= j < k ==> s@[i + j] == p@[j],
        decreases p.len() - k,
    {
        if s[i + k] != p[k] {
            assert(s@.subrange(i as int, i + p.len())[k as int] != p@[k as int]);
            return false;
        }
        k += 1;
    }
    assert(s@.subrange(i as int, i + p.len()) =~= p@);
    true
}

pub fn starts_with(s: &[char], p: &[char]) -> (r: bool)
    ensures
        r == has_prefix(s@, p@),
{
    occurs_at_exec(s, p, 0)
}

pub fn ends_with(s: &[char], p: &[char]) -> (r: bool)
    ensures
        r == has_suffix(s@, p@),
{
    if p.len() > s.len() {
        false
    } else {
        occurs_at_exec(s, p, s.len() - p.len())
    }
}

/// First occurrence of `p` in `s` at or after `from`.
pub fn find_from_exec(s: &[char], p: &[char], from: usize) -> (r: Option<usize>)
    ensures
        r == (match find_from(s@, p@, from as int) {
            Some(j) => Some(j as usize),
            None => None::<usize>,
        }),
{
    let mut i = from;
    while i <= s.len() && p.len() <= s.len() - i
        invariant
            from <= i,
            find_from(s@, p@, from as int) == find_from(s@, p@, i as int),
        decreases s.len() + 1 - i,
    {
        if occurs_at_exec(s, p, i) {
            return Some(i);
        }
        assert(p.len() > 0) by {
            if p.len() == 0 {
                assert(s@.subrange(i as int, i as int) =~= p@);
            }
        }
        i += 1;
    }
    None
}

pub fn find_exec(s: &[char], p: &[char]) -> (r: Option<usize>)
    ensures
        r == (match find(s@, p@) {
            Some(j) => Some(j as usize),
            None => None::<usize>,
        }),
        match r {
            Some(i) => find(s@, p@) == Some(i as int) && occurs_at(s@, p@, i as int),
            None => find(s@, p@) is None,
        },
{
    let n = s.len();
    let r = find_from_exec(s, p, 0);
    proof {
        lemma_find_from_range(s@, p@, 0);
        if let Some(j) = find(s@, p@) {
            assert(0 <= j <= n);
        }
    }
    r
}

/// First index at or after `from` holding `c`.
pub fn find_char_from_exec(s: &[char], c: char, from: usize) -> (r: Option<usize>)
    ensures
        r == (match find_char_from(s@, c, from as int) {
            Some(j) => Some(j as usize),
            None => None::<usize>,
        }),
{
    let mut i = from;
    while i < s.len()
        invariant
            from <= i,
            find_char_from(s@, c, from as int) == find_char_from(s@, c, i as int),
        decreases s.len() - i,
    {
        if s[i] == c {
            return Some(i);
        }
        i += 1;
    }
    None
}

pub fn find_char_exec(s: &[char], c: char) -> (r: Option<usize>)
    ensures
        r == (match find_char(s@, c) {
            Some(j) => Some(j as usize),
            None => None::<usize>,
        }),
{
    find_char_from_exec(s, c, 0)
}

/// Last index holding `c`.
pub fn rfind_char_exec(s: &[char], c: char) -> (r: Option<usize>)
    ensures
        r == (match rfind_char(s@, c) {
            Some(j) => Some(j as usize),
            None => None::<usize>,
        }),
{
    let mut n = s.len();
    while n > 0
        invariant
            n <= s.len(),
            rfind_char(s@, c) == rfind_char_before(s@, c, n as int),
        decreases n,
    {
        if s[n - 1] == c {
            return Some(n - 1);
        }
        n -= 1;
    }
    None
}

/// `s[lo..hi]` as a new vector.
pub fn slice_of(s: &[char], lo: usize, hi: usize) -> (r: Vec<char>)
    requires
        lo <= hi <= s.len(),
    ensures
        r@ == s@.subrange(lo as int, hi as int),
{
    let mut r: Vec<char> = Vec::new();
    let mut i = lo;
    while i < hi
        invariant
            lo <= i <= hi <= s.len(),
            r@ == s@.subrange(lo as int, i as int),
        decreases hi - i,
    {
        r.push(s[i]);
        assert(s@.subrange(lo as int, i as int).push(s@[i as int]) =~= s@.subrange(
            lo as int,
            i + 1,
        ));
        i += 1;
    }
    r
}

/// Append all of `b` to `a`.
pub fn push_all(a: &mut Vec<char>, b: &[char])
    ensures
        final(a)@ == old(a)@ + b@,
{
    let mut i: usize = 0;
    while i < b.len()
        invariant
            i <= b.len(),
            a@ == old(a)@ + b@.take(i as int),
        decreases b.len() - i,
    {
        a.push(b[i]);
        assert(old(a)@ + b@.take(i as int) + seq![b@[i as int]] =~= old(a)@ + b@.take(i + 1));
        i += 1;
    }
    assert(b@.take(b.len() as int) =~= b@);
}

/// `a` followed by `b`.
pub fn concat(a: &[char], b: &[char]) -> (r: Vec<char>)
    ensures
        r@ == a@ + b@,
{
    let mut r = slice_of(a, 0, a.len());
    assert(a@.subrange(0, a.len() as int) =~= a@);
    push_all(&mut r, b);
    r
}

/// Append a string's characters to a string.
pub fn append_str(s: &mut String, t: &str)
    ensures
        final(s)@ == old(s)@ + t@,
{
    let v = chars_of(t);
    let mut i: usize = 0;
    while i < v.len()
        invariant
            i <= v.len(),
            v@ == t@,
            s@ == old(s)@ + v@.take(i as int),
        decreases v.len() - i,
    {
        push_char(s, v[i]);
        assert(old(s)@ + v@.take(i as int) + seq![v@[i as int]] =~= old(s)@ + v@.take(i + 1));
        i += 1;
    }
    assert(v@.take(v.len() as int) =~= v@);
}

/// Append characters to a string.
pub fn append_chars(s: &mut String, v: &[char])
    ensures
        final(s)@ == old(s)@ + v@,
{
    let mut i: usize = 0;
    while i < v.len()
        invariant
            i <= v.len(),
            s@ == old(s)@ + v@.take(i as int),
        decreases v.len() - i,
    {
        push_char(s, v[i]);
        assert(old(s)@ + v@.take(i as int) + seq![v@[i as int]] =~= old(s)@ + v@.take(i + 1));
        i += 1;
    }
    assert(v@.take(v.len() as int) =~= v@);
}

/// `trim_start_matches(p)`: drop every leading copy of `p`.
pub fn strip_prefixes_exec(s: &[char], p: &[char]) -> (r: Vec<char>)
    ensures
        r@ == strip_prefixes(s@, p@),
{
    let mut i: usize = 0;
    if p.len() == 0 {
        return slice_of(s, 0, s.len());
    }
    assert(s@.subrange(0, s.len() as int) =~= s@);
    while occurs_at_exec(s, p, i)
        invariant
            p.len() > 0,
            i <= s.len(),
            strip_prefixes(s@, p@) == strip_prefixes(s@.subrange(i as int, s.len() as int), p@),
        decreases s.len() - i,
    {
        let ghost t = s@.subrange(i as int, s.len() as int);
        assert(has_prefix(t, p@)) by {
            assert(t.subrange(0, p.len() as int) =~= s@.subrange(i as int, i + p.len()));
        }
        assert(t.subrange(p.len() as int, t.len() as int) =~= s@.subrange(
            i + p.len(),
            s.len() as int,
        ));
        i = i + p.len();
    }
    let ghost t = s@.subrange(i as int, s.len() as int);
    assert(!has_prefix(t, p@)) by {
        if has_prefix(t, p@) {
            assert(t.subrange(0, p.len() as int) =~= s@.subrange(i as int, i + p.len()));
        }
    }
    slice_of(s, i, s.len())
}

/// `trim_end_matches(c)`: drop every trailing `c`.
pub fn strip_trailing_exec(s: &[char], c: char) -> (r: Vec<char>)
    ensures
        r@ == strip_trailing(s@, c),
{
    let mut n = s.len();
    assert(s@.take(n as int) =~= s@);
    while n > 0 && s[n - 1] == c
        invariant
            n <= s.len(),
            strip_trailing(s@, c) == strip_trailing(s@.take(n as int), c),
        decreases n,
    {
        assert(s@.take(n as int).drop_last() =~= s@.take(n - 1));
        n -= 1;
    }
    slice_of(s, 0, n)
}

/// `str::split` with a character separator.
pub fn split_char_exec(s: &[char], c: char) -> (r: Vec<Vec<char>>)
    ensures
        views(r@) == split_char(s@, c),
{
    let mut parts: Vec<Vec<char>> = Vec::new();
    let mut cur: Vec<char> = Vec::new();
    let mut i: usize = 0;
    assert(s@.take(0) =~= Seq::<char>::empty());
    while i < s.len()
        invariant
            i <= s.len(),
            views(parts@).push(cur@) == split_char(s@.take(i as int), c),
        decreases s.len() - i,
    {
        let ghost before = views(parts@);
        let ghost cur0 = cur@;
        assert(s@.take(i + 1).drop_last() =~= s@.take(i as int));
        if s[i] == c {
            let done = cur;
            parts.push(done);
            cur = Vec::new();
            assert(views(parts@) =~= before.push(cur0));
            assert(views(parts@).push(cur@) =~= before.push(cur0).push(Seq::<char>::empty()));
        } else {
            cur.push(s[i]);
            assert(views(parts@).push(cur@) =~= before.push(cur0).update(
                before.len() as int,
                cur0.push(s@[i as int]),
            ));
        }
        i += 1;
    }
    assert(s@.take(s.len() as int) =~= s@);
    let ghost before = views(parts@);
    parts.push(cur);
    assert(views(parts@) =~= before.push(cur@));
    parts
}

/// `str::lines`.
pub fn lines_exec(s: &[char]) -> (r: Vec<Vec<char>>)
    ensures
        views(r@) == lines(s@),
{
    let parts = split_char_exec(s, '\n');
    proof {
        lemma_split_char_nonempty(s@, '\n');
    }
    let n = parts.len();
    let ghost ps = split_char(s@, '\n');
    let mut out: Vec<Vec<char>> = Vec::new();
    let mut i: usize = 0;
    while i + 1 < n
        invariant
            n == parts.len(),
            n >= 1,
            views(parts@) == ps,
            i + 1 <= n,
            views(out@) == ps.drop_last().take(i as int).map_values(|p: Seq<char>| strip_cr(p)),
        decreases n - i,
    {
        let p = &parts[i];
        let ghost before = views(out@);
        assert(views(parts@)[i as int] == p@);
        if p.len() > 0 && p[p.len() - 1] == '\r' {
            let q = slice_of(p, 0, p.len() - 1);
            assert(q@ =~= strip_cr(p@));
            out.push(q);
        } else {
            let q = slice_of(p, 0, p.len());
            assert(q@ =~= strip_cr(p@));
            out.push(q);
        }
        assert(views(out@) =~= before.push(strip_cr(ps[i as int])));
        assert(ps.drop_last().take(i + 1) =~= ps.drop_last().take(i as int).push(ps[i as int]));
        assert(views(out@) =~= ps.drop_last().take(i + 1).map_values(
            |p: Seq<char>| strip_cr(p),
        ));
        i += 1;
    }
    assert(ps.drop_last().take((n - 1) as int) =~= ps.drop_last());
    let last = &parts[n - 1];
    assert(views(parts@)[n - 1] == last@);
    if last.len() > 0 {
        let q = slice_of(last, 0, last.len());
        assert(last@.subrange(0, last.len() as int) =~= last@);
        let ghost before = views(out@);
        out.push(q);
        assert(views(out@) =~= before.push(last@));
    }
    out
}

/// Pieces joined with `sep`.
pub fn join_exec(parts: &Vec<Vec<char>>, sep: &[char]) -> (r: Vec<char>)
    ensures
        r@ == join(views(parts@), sep@),
{
    let mut r: Vec<char> = Vec::new();
    let mut i: usize = 0;
    while i < parts.len()
        invariant
            i <= parts.len(),
            r@ == join(views(parts@).take(i as int), sep@),
        decreases parts.len() - i,
    {
        let ghost pre = views(parts@).take(i as int);
        assert(views(parts@).take(i + 1).drop_last() =~= pre);
        assert(views(parts@).take(i + 1).last() == parts@[i as int]@);
        if i > 0 {
            push_all(&mut r, sep);
        } else {
            assert(views(parts@).take(1) =~= seq![parts@[0]@]);
        }
        push_all(&mut r, &parts[i]);
        assert(r@ =~= join(views(parts@).take(i + 1), sep@));
        i += 1;
    }
    assert(views(parts@).take(parts.len() as int) =~= views(parts@));
    r
}

pub fn is_ws_exec(c: char) -> (r: bool)
    ensures
        r == is_ws(c),
{
    ('\u{9}' <= c && c <= '\u{d}') || c == ' ' || c == '\u{85}' || c == '\u{a0}' || c
        == '\u{1680}' || ('\u{2000}' <= c && c <= '\u{200a}') || c == '\u{2028}' || c
        == '\u{2029}' || c == '\u{202f}' || c == '\u{205f}' || c == '\u{3000}'
}

/// `str::trim_start`.
pub fn trim_start_exec(s: &[char]) -> (r: Vec<char>)
    ensures
        r@ == trim_start_ws(s@),
{
    let mut i: usize = 0;
    assert(s@.subrange(0, s.len() as int) =~= s@);
    while i < s.len() && is_ws_exec(s[i])
        invariant
            i <= s.len(),
            trim_start_ws(s@) == trim_start_ws(s@.subrange(i as int, s.len() as int)),
        decreases s.len() - i,
    {
        assert(s@.subrange(i as int, s.len() as int).subrange(1, s.len() - i) =~= s@.subrange(
            i + 1,
            s.len() as int,
        ));
        i += 1;
    }
    slice_of(s, i, s.len())
}

/// `str::trim_end`.
pub fn trim_end_exec(s: &[char]) -> (r: Vec<char>)
    ensures
        r@ == trim_end_ws(s@),
{
    let mut n = s.len();
    assert(s@.take(n as int) =~= s@);
    while n > 0 && is_ws_exec(s[n - 1])
        invariant
            n <= s.len(),
            trim_end_ws(s@) == trim_end_ws(s@.take(n as int)),
        decreases n,
    {
        assert(s@.take(n as int).drop_last() =~= s@.take(n - 1));
        n -= 1;
    }
    slice_of(s, 0, n)
}

/// `str::trim`.
pub fn trim_exec(s: &[char]) -> (r: Vec<char>)
    ensures
        r@ == trim_ws(s@),
{
    let t = trim_start_exec(s);
    trim_end_exec(&t)
}

pub fn ascii_lower_char_exec(c: char) -> (r: char)
    ensures
        r == ascii_lower_char(c),
{
    if 'A' <= c && c <= 'Z' {
        let b: u8 = (c as u8) + 32;
        b as char
    } else {
        c
    }
}

/// ASCII lower-casing, character by character (`to_ascii_lowercase`).
pub fn ascii_lower_exec(s: &[char]) -> (r: Vec<char>)
    ensures
        r@ == ascii_lower(s@),
{
    let mut r: Vec<char> = Vec::new();
    let mut i: usize = 0;
    while i < s.len()
        invariant
            i <= s.len(),
            r@ == ascii_lower(s@.take(i as int)),
        decreases s.len() - i,
    {
        let c = ascii_lower_char_exec(s[i]);
        r.push(c);
        assert(r@ =~= ascii_lower(s@.take(i + 1)));
        i += 1;
    }
    assert(s@.take(s.len() as int) =~= s@);
    r
}

pub fn ascii_upper_exec(s: &[char]) -> (r: Vec<char>)
    ensures
        r@ == ascii_upper(s@),
{
    let mut r: Vec<char> = Vec::new();
    let mut i: usize = 0;
    while i < s.len()
        invariant
            i <= s.len(),
            r@ == ascii_upper(s@.take(i as int)),
        decreases s.len() - i,
    {
        let c = s[i];
        let u = if 'a' <= c && c <= 'z' {
            let b: u8 = (c as u8) - 32;
            b as char
        } else {
            c
        };
        r.push(u);
        assert(ascii_upper(s@.take(i + 1)) =~= ascii_upper(s@.take(i as int)).push(
            ascii_upper_char(s@[i as int]),
        ));
        i += 1;
    }
    assert(s@.take(s.len() as int) =~= s@);
    r
}

pub fn is_ascii_alnum_exec(c: char) -> (r: bool)
    ensures
        r == is_ascii_alnum(c),
{
    ('0' <= c && c <= '9') || ('a' <= c && c <= 'z') || ('A' <= c && c <= 'Z')
}

pub fn contains_exec(s: &[char], p: &[char]) -> (r: bool)
    ensures
        r == contains_seq(s@, p@),
{
    find_exec(s, p).is_some()
}

pub fn digit_exec(d: u64) -> (c: char)
    requires
        d < 10,
    ensures
        c == digit(d as nat),
{
    if d == 0 {
        '0'
    } else if d == 1 {
        '1'
    } else if d == 2 {
        '2'
    } else if d == 3 {
        '3'
    } else if d == 4 {
        '4'
    } else if d == 5 {
        '5'
    } else if d == 6 {
        '6'
    } else if d == 7 {
        '7'
    } else if d == 8 {
        '8'
    } else {
        '9'
    }
}

/// `str::parse::<i64>` over characters.
#[verifier::loop_isolation(false)]
pub fn parse_i64_exec(s: &[char]) -> (r: Option<i64>)
    ensures
        match r {
            Some(v) => parse_i64(s@) == Some(v as int),
            None => parse_i64(s@) is None,
        },
{
    let n = s.len();
    if n == 0 {
        return None;
    }
    let neg = s[0] == '-';
    let start: usize = if s[0] == '-' || s[0] == '+' {
        1
    } else {
        0
    };
    let ghost ds = s@.subrange(start as int, n as int);
    assert(start == 0 ==> ds =~= s@);
    if start >= n {
        return None;
    }
    let mut acc: u128 = 0;
    let mut i: usize = start;
    while i < n
        invariant
            start <= i <= n,
            n == s.len(),
            ds == s@.subrange(start as int, n as int),
            acc == digits_value(ds.take(i - start)),
            acc <= 9223372036854775808,
            forall|k: int| 0 <= k < i - start ==> is_digit(#[trigger] ds[k]),
        decreases n - i,
    {
        let c = s[i];
        assert(ds[i - start] == c);
        if !('0' <= c && c <= '9') {
            assert(!is_digit(ds[i - start]));
            return None;
        }
        let d: u128 = ((c as u32) - ('0' as u32)) as u128;
        let next: u128 = acc * 10 + d;
        assert(ds.take(i + 1 - start).drop_last() =~= ds.take(i - start));
        assert(next == digits_value(ds.take(i + 1 - start)));
        if next > 9223372036854775808 {
            proof {
                if all_digits(ds) {
                    lemma_digits_value_prefix(ds, i + 1 - start);
                }
            }
            return None;
        }
        acc = next;
        i += 1;
    }
    assert(ds.take(n - start) =~= ds);
    assert(all_digits(ds));
    assert(acc == digits_value(ds));
    if neg {
        let v: i128 = -(acc as i128);
        Some(v as i64)
    } else if acc > 9223372036854775807 {
        None
    } else {
        Some(acc as i64)
    }
}

/// Append the decimal digits of `n`.
pub fn push_decimal(v: &mut Vec<char>, n: u64)
    ensures
        final(v)@ == old(v)@ + decimal(n as nat),
    decreases n,
{
    if n >= 10 {
        push_decimal(v, n / 10);
    }
    let c = digit_exec(n % 10);
    v.push(c);
    proof {
        if n >= 10 {
            assert(decimal(n as nat) == decimal((n / 10) as nat).push(digit((n % 10) as nat)));
        }
    }
    assert(v@ =~= old(v)@ + decimal(n as nat));
}

/// Append the decimal text of a signed integer.
pub fn push_signed(v: &mut Vec<char>, n: i64)
    ensures
        final(v)@ == old(v)@ + signed_decimal(n as int),
{
    if n < 0 {
        v.push('-');
        let m: u64 = (-(n as i128)) as u64;
        push_decimal(v, m);
        assert(v@ =~= old(v)@ + signed_decimal(n as int));
    } else {
        push_decimal(v, n as u64);
    }
}

} // verus!
