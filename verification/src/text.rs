//! Character-level helpers for working with `str` and `String` values.

use vstd::prelude::*;
use vstd::string::*;

verus! {

/// Calls `str::eq` of the standard library: two string slices compare equal
/// exactly when they hold the same characters.
#[verifier::external_body]
pub(crate) fn str_eq(a: &str, b: &str) -> (same: bool)
    ensures
        same == (a@ == b@),
{
    a == b
}

/// Calls `String::push` of the standard library, which appends one character.
#[verifier::external_body]
pub(crate) fn push_char(s: &mut String, c: char)
    ensures
        final(s)@ == old(s)@.push(c),
{
    s.push(c)
}

/// The characters of `s`, in order.
pub fn chars_of(s: &str) -> (v: Vec<char>)
    ensures
        v@ == s@,
{
    let mut v: Vec<char> = Vec::new();
    for c in it: s.chars()
        invariant
            it.seq() == s@,
            v@ == it.seq().take(it.index() as int),
    {
        assert(it.seq().take(it.index() + 1) =~= it.seq().take(it.index() as int).push(c));
        v.push(c);
    }
    assert(v@ =~= s@);
    v
}

/// The string made of the characters `v[from..to]`.
pub fn string_of(v: &Vec<char>, from: usize, to: usize) -> (s: String)
    requires
        from <= to <= v.len(),
    ensures
        s@ == v@.subrange(from as int, to as int),
{
    let mut s = String::new();
    let mut i: usize = from;
    while i < to
        invariant
            from <= i <= to <= v.len(),
            s@ == v@.subrange(from as int, i as int),
        decreases to - i,
    {
        push_char(&mut s, v[i]);
        assert(v@.subrange(from as int, i + 1) =~= v@.subrange(from as int, i as int).push(
            v@[i as int],
        ));
        i = i + 1;
    }
    s
}

/// `p` is a prefix of `s`.
pub open spec fn is_prefix(p: Seq<char>, s: Seq<char>) -> bool {
    p.len() <= s.len() && s.subrange(0, p.len() as int) == p
}

/// `needle` occurs in `hay` starting at position `at`.
pub open spec fn occurs_at(needle: Seq<char>, hay: Seq<char>, at: int) -> bool {
    0 <= at && at + needle.len() <= hay.len() && hay.subrange(at, at + needle.len()) == needle
}

/// `needle` occurs somewhere in `hay`.
pub open spec fn contains_text(hay: Seq<char>, needle: Seq<char>) -> bool {
    exists|at: int| occurs_at(needle, hay, at)
}

/// Whether `needle` occurs in `hay` at position `at`.
pub fn matches_at(needle: &Vec<char>, hay: &Vec<char>, at: usize) -> (found: bool)
    ensures
        found == occurs_at(needle@, hay@, at as int),
{
    if at > hay.len() || needle.len() > hay.len() - at {
        return false;
    }
    let mut k: usize = 0;
    while k < needle.len()
        invariant
            at + needle.len() <= hay.len(),
            k <= needle.len(),
            forall|j: int| 0 <= j < k ==> hay@[at + j] == needle@[j],
        decreases needle.len() - k,
    {
        if hay[at + k] != needle[k] {
            assert(hay@.subrange(at as int, at + needle.len())[k as int] != needle@[k as int]);
            return false;
        }
        k = k + 1;
    }
    assert(hay@.subrange(at as int, at + needle.len()) =~= needle@);
    true
}

/// Whether `content` starts with `prefix`.
pub fn starts_with(content: &str, prefix: &str) -> (found: bool)
    ensures
        found == is_prefix(prefix@, content@),
{
    let hay = chars_of(content);
    let needle = chars_of(prefix);
    matches_at(&needle, &hay, 0)
}

/// Whether `needle` occurs anywhere in `hay`.
pub fn contains(hay: &str, needle: &str) -> (found: bool)
    ensures
        found == contains_text(hay@, needle@),
{
    let h = chars_of(hay);
    let n = chars_of(needle);
    if n.len() > h.len() {
        assert forall|at: int| !occurs_at(n@, h@, at) by {}
        return false;
    }
    let last: usize = h.len() - n.len();
    let mut at: usize = 0;
    while at < last
        invariant
            h@ == hay@,
            n@ == needle@,
            last == h.len() - n.len(),
            at <= last,
            forall|j: int| 0 <= j < at ==> !occurs_at(n@, h@, j),
        decreases last - at,
    {
        if matches_at(&n, &h, at) {
            return true;
        }
        at = at + 1;
    }
    matches_at(&n, &h, last)
}

/// Whether a character has the Unicode `White_Space` property.
pub uninterp spec fn unicode_white_space(c: char) -> bool;

/// Whether a character belongs to the Unicode general category `Cc`.
pub uninterp spec fn unicode_control(c: char) -> bool;

/// Calls `char::is_whitespace` of the standard library, which tells whether
/// the character has the `White_Space` property.
#[verifier::external_body]
pub(crate) fn is_whitespace(c: char) -> (white: bool)
    ensures
        white == unicode_white_space(c),
{
    c.is_whitespace()
}

/// Calls `char::is_control` of the standard library, which tells whether the
/// character is a control code.
#[verifier::external_body]
pub(crate) fn is_control(c: char) -> (control: bool)
    ensures
        control == unicode_control(c),
{
    c.is_control()
}

/// Every character of `s` is white space; true of the empty text.
pub open spec fn is_blank(s: Seq<char>) -> bool {
    forall|i: int| 0 <= i < s.len() ==> unicode_white_space(#[trigger] s[i])
}

/// Whether `s` holds nothing but white space.
pub fn blank(s: &str) -> (all_white: bool)
    ensures
        all_white == is_blank(s@),
{
    let v = chars_of(s);
    let mut i: usize = 0;
    while i < v.len()
        invariant
            v@ == s@,
            i <= v.len(),
            forall|j: int| 0 <= j < i ==> unicode_white_space(#[trigger] v@[j]),
        decreases v.len() - i,
    {
        if !is_whitespace(v[i]) {
            return false;
        }
        i = i + 1;
    }
    true
}

/// The character that writes the decimal digit `d`.
pub open spec fn digit_char(d: int) -> char {
    if d == 0 {
        '0'
    } else if d == 1 {
        '1'
    } else if d == 2 {
        '2'
    } else if d == 3 {
        '3'
    } else if d == 4 {
        '4'
    } else if d == 5 {
        '5'
    } else if d == 6 {
        '6'
    } else if d == 7 {
        '7'
    } else if d == 8 {
        '8'
    } else {
        '9'
    }
}

/// The decimal numeral of `n`, without sign or leading zeros.
pub open spec fn decimal_text(n: nat) -> Seq<char>
    decreases n,
{
    if n < 10 {
        seq![digit_char(n as int)]
    } else {
        decimal_text(n / 10).push(digit_char((n % 10) as int))
    }
}

/// The character that writes the decimal digit `d`.
fn digit(d: usize) -> (c: char)
    requires
        d < 10,
    ensures
        c == digit_char(d as int),
{
    if d == 0 {
        '0'
    } else if d == 1 {
        '1'
    } else if d == 2 {
        '2'
    } else if d == 3 {
        '3'
    } else if d == 4 {
        '4'
    } else if d == 5 {
        '5'
    } else if d == 6 {
        '6'
    } else if d == 7 {
        '7'
    } else if d == 8 {
        '8'
    } else {
        '9'
    }
}

/// Writes `n` in decimal.
pub fn decimal(n: usize) -> (s: String)
    ensures
        s@ == decimal_text(n as nat),
{
    let mut low_first: Vec<char> = Vec::new();
    let mut m: usize = n;
    while m >= 10
        invariant
            decimal_text(n as nat) == decimal_text(m as nat) + low_first@.reverse(),
        decreases m,
    {
        let d = digit(m % 10);
        proof {
            let before = low_first@;
            assert(before.push(d).reverse() =~= seq![d] + before.reverse());
            assert(decimal_text(m as nat) == decimal_text((m / 10) as nat).push(d));
            assert(decimal_text((m / 10) as nat).push(d) + before.reverse() =~= decimal_text(
                (m / 10) as nat,
            ) + (seq![d] + before.reverse()));
        }
        low_first.push(d);
        m = m / 10;
    }
    let d = digit(m);
    proof {
        let before = low_first@;
        assert(before.push(d).reverse() =~= seq![d] + before.reverse());
        assert(decimal_text(m as nat) + before.reverse() =~= seq![d] + before.reverse());
    }
    low_first.push(d);
    let mut s = String::new();
    let mut k: usize = low_first.len();
    while k > 0
        invariant
            k <= low_first.len(),
            s@ == low_first@.reverse().take(low_first.len() - k),
        decreases k,
    {
        k = k - 1;
        push_char(&mut s, low_first[k]);
        assert(low_first@.reverse().take(low_first.len() - k) =~= low_first@.reverse().take(
            low_first.len() - k - 1,
        ).push(low_first@[k as int]));
    }
    assert(low_first@.reverse().take(low_first.len() as int) =~= low_first@.reverse());
    s
}

/// What `str::to_lowercase` makes of a text.
pub uninterp spec fn lowercase(s: Seq<char>) -> Seq<char>;

/// Calls `str::to_lowercase` of the standard library.
#[verifier::external_body]
pub(crate) fn to_lowercase(s: &str) -> (lower: String)
    ensures
        lower@ == lowercase(s@),
{
    s.to_lowercase()
}

/// The texts other than `text`, in their order.
pub open spec fn without_text(texts: Seq<Seq<char>>, text: Seq<char>) -> Seq<Seq<char>> {
    texts.filter(|t: Seq<char>| t != text)
}

/// Appends the text unless the list holds it already.
pub fn add_once(texts: &mut Vec<String>, text: String)
    ensures
        final(texts).deep_view() == if old(texts).deep_view().contains(text@) {
            old(texts).deep_view()
        } else {
            old(texts).deep_view().push(text@)
        },
{
    if !list_holds(texts, text.as_str()) {
        let ghost before = texts.deep_view();
        texts.push(text);
        assert(texts.deep_view() =~= before.push(text@));
    }
}

/// Removes every occurrence of the text from the list.
pub fn remove_text(texts: &mut Vec<String>, text: &str)
    ensures
        final(texts).deep_view() == without_text(old(texts).deep_view(), text@),
{
    let ghost before = texts.deep_view();
    let ghost keep = |t: Seq<char>| t != text@;
    let mut kept: Vec<String> = Vec::new();
    let mut i: usize = 0;
    assert(before.take(0) =~= Seq::<Seq<char>>::empty());
    proof {
        reveal(Seq::filter);
    }
    while i < texts.len()
        invariant
            i <= texts.len(),
            before == texts.deep_view(),
            keep == (|t: Seq<char>| t != text@),
            kept.deep_view() == before.take(i as int).filter(keep),
        decreases texts.len() - i,
    {
        let ghost so_far = kept.deep_view();
        assert(before.take(i + 1) =~= before.take(i as int).push(before[i as int]));
        proof {
            before.take(i as int).lemma_filter_push(before[i as int], keep);
        }
        if !str_eq(texts[i].as_str(), text) {
            kept.push(texts[i].clone());
            assert(kept.deep_view() =~= so_far.push(before[i as int]));
        }
        i = i + 1;
    }
    assert(before.take(texts.len() as int) =~= before);
    *texts = kept;
}

/// The first place at which a list of texts holds the text.
pub fn index_of(texts: &Vec<String>, text: &str) -> (r: Option<usize>)
    ensures
        r is Some <==> texts.deep_view().contains(text@),
        r matches Some(i) ==> i < texts@.len() && texts.deep_view()[i as int] == text@,
{
    let mut i: usize = 0;
    while i < texts.len()
        invariant
            i <= texts.len(),
            forall|k: int| 0 <= k < i ==> (#[trigger] texts.deep_view()[k]) != text@,
        decreases texts.len() - i,
    {
        if str_eq(texts[i].as_str(), text) {
            assert(texts.deep_view()[i as int] == text@);
            return Some(i);
        }
        i = i + 1;
    }
    None
}

/// Whether a list of texts holds the text.
pub fn list_holds(texts: &Vec<String>, text: &str) -> (found: bool)
    ensures
        found == texts.deep_view().contains(text@),
{
    let mut i: usize = 0;
    while i < texts.len()
        invariant
            i <= texts.len(),
            forall|k: int| 0 <= k < i ==> (#[trigger] texts.deep_view()[k]) != text@,
        decreases texts.len() - i,
    {
        if str_eq(texts[i].as_str(), text) {
            assert(texts.deep_view()[i as int] == text@);
            return true;
        }
        i = i + 1;
    }
    false
}

/// The concatenation of the three texts.
pub fn concat3(a: &str, b: &str, c: &str) -> (s: String)
    ensures
        s@ == a@ + b@ + c@,
{
    String::from_str(a).concat(b).concat(c)
}

/// The character with an upper-case ASCII letter replaced by its lower-case
/// form.
pub open spec fn fold_ascii(c: char) -> char {
    if 'A' <= c && c <= 'Z' {
        ((c as u32 + 32) as u8) as char
    } else {
        c
    }
}

/// Whether the pattern from place `i` on matches the text from place `j` on.
/// `%` stands for any run of characters, `_` for any one character, and
/// ASCII letters match in either case.
pub open spec fn like_at(pattern: Seq<char>, text: Seq<char>, i: int, j: int) -> bool
    decreases pattern.len() - i, text.len() - j,
{
    if i < 0 || j < 0 || i > pattern.len() || j > text.len() {
        false
    } else if i == pattern.len() {
        j == text.len()
    } else if pattern[i] == '%' {
        like_at(pattern, text, i + 1, j) || (j < text.len() && like_at(pattern, text, i, j + 1))
    } else {
        j < text.len() && (pattern[i] == '_' || fold_ascii(pattern[i]) == fold_ascii(text[j]))
            && like_at(pattern, text, i + 1, j + 1)
    }
}

/// Whether the text matches the pattern as a whole.
pub open spec fn is_like(pattern: Seq<char>, text: Seq<char>) -> bool {
    like_at(pattern, text, 0, 0)
}

/// The character with an upper-case ASCII letter replaced by its lower-case
/// form.
fn fold(c: char) -> (r: char)
    ensures
        r == fold_ascii(c),
{
    if 'A' <= c && c <= 'Z' {
        ((c as u32 + 32) as u8) as char
    } else {
        c
    }
}

/// Whether the text matches the pattern, where `%` stands for any run of
/// characters, `_` for any one character, and ASCII letters match in either
/// case.
pub fn like(pattern: &str, text: &str) -> (matched: bool)
    ensures
        matched == is_like(pattern@, text@),
{
    let p = chars_of(pattern);
    let t = chars_of(text);
    let n = t.len();
    let mut below: Vec<bool> = Vec::new();
    let mut row: Vec<bool> = Vec::new();
    let mut j: usize = 0;
    while j < n
        invariant
            j <= n,
            n == t.len(),
            below@.len() == j,
            row@.len() == j,
            forall|k: int| 0 <= k < j ==> !#[trigger] below@[k],
        decreases n - j,
    {
        below.push(false);
        row.push(false);
        j = j + 1;
    }
    below.push(true);
    row.push(false);
    let mut i: usize = p.len();
    while i > 0
        invariant
            i <= p.len(),
            n == t.len(),
            below@.len() == n + 1,
            row@.len() == n + 1,
            forall|k: int| 0 <= k <= n ==> #[trigger] below@[k] == like_at(p@, t@, i as int, k),
        decreases i,
    {
        i = i - 1;
        let c = p[i];
        row.set(n, c == '%' && below[n]);
        let mut k: usize = n;
        while k > 0
            invariant
                k <= n,
                n == t.len(),
                i < p.len(),
                c == p@[i as int],
                below@.len() == n + 1,
                row@.len() == n + 1,
                forall|q: int| 0 <= q <= n ==> #[trigger] below@[q] == like_at(p@, t@, i + 1, q),
                forall|q: int| k <= q <= n ==> #[trigger] row@[q] == like_at(p@, t@, i as int, q),
            decreases k,
        {
            k = k - 1;
            let here = if c == '%' {
                below[k] || row[k + 1]
            } else {
                (c == '_' || fold(c) == fold(t[k])) && below[k + 1]
            };
            row.set(k, here);
        }
        core::mem::swap(&mut below, &mut row);
    }
    below[0]
}

} // verus!
