use vstd::prelude::*;

use crate::paths::{has_drive, has_drive_exec, is_separator, is_separator_exec, Platform};

verus! {

broadcast use vstd::seq_lib::group_seq_properties;

// ---------------------------------------------------------------------------------------------
// Comparing and building texts.
// ---------------------------------------------------------------------------------------------

/// Tells whether two texts are equal.
pub fn same_text(a: &str, b: &str) -> (r: bool)
    ensures
        r == (a@ == b@),
{
    let x = String::from_str(a);
    let y = String::from_str(b);
    x == y
}

/// The characters of a text.
pub fn chars_of(s: &str) -> (r: Vec<char>)
    ensures
        r@ == s@,
{
    let n = s.unicode_len();
    let mut r: Vec<char> = Vec::new();
    let mut i: usize = 0;
    while i < n
        invariant
            n == s@.len(),
            i <= n,
            r@ == s@.take(i as int),
        decreases n - i,
    {
        r.push(s.get_char(i));
        i = i + 1;
        assert(r@ =~= s@.take(i as int));
    }
    assert(s@.take(n as int) =~= s@);
    r
}

/// The text of two pieces put one after the other.
pub fn join2(a: &str, b: &str) -> (r: String)
    ensures
        r@ == a@ + b@,
{
    let mut s = String::from_str(a);
    s.append(b);
    s
}

/// The text of three pieces put one after another.
pub fn join3(a: &str, b: &str, c: &str) -> (r: String)
    ensures
        r@ == a@ + b@ + c@,
{
    let mut s = String::from_str(a);
    s.append(b);
    s.append(c);
    s
}

/// `a` comes strictly before `b` in the order of texts: character by character by code
/// point, a proper prefix first. This is the order of `str` in std.
pub open spec fn text_lt(a: Seq<char>, b: Seq<char>) -> bool
    decreases a.len(),
{
    if a.len() == 0 {
        b.len() > 0
    } else if b.len() == 0 {
        false
    } else if a[0] != b[0] {
        a[0] < b[0]
    } else {
        text_lt(a.drop_first(), b.drop_first())
    }
}

/// Tells whether `a` comes strictly before `b` in the order of texts.
pub fn text_less(a: &str, b: &str) -> (r: bool)
    ensures
        r == text_lt(a@, b@),
{
    let x = chars_of(a);
    let y = chars_of(b);
    let mut i: usize = 0;
    while i < x.len() && i < y.len() && x[i] == y[i]
        invariant
            i <= x.len(),
            i <= y.len(),
            x@ == a@,
            y@ == b@,
            text_lt(a@, b@) == text_lt(a@.skip(i as int), b@.skip(i as int)),
        decreases x.len() - i,
    {
        assert(a@.skip(i as int).drop_first() =~= a@.skip(i as int + 1));
        assert(b@.skip(i as int).drop_first() =~= b@.skip(i as int + 1));
        i = i + 1;
    }
    if i == x.len() {
        i < y.len()
    } else if i == y.len() {
        false
    } else {
        x[i] < y[i]
    }
}

/// No text comes before itself.
pub proof fn lemma_text_lt_irreflexive(a: Seq<char>)
    ensures
        !text_lt(a, a),
    decreases a.len(),
{
    if a.len() > 0 {
        lemma_text_lt_irreflexive(a.drop_first());
    }
}

/// Of two texts, at most one comes before the other.
pub proof fn lemma_text_lt_asymmetric(a: Seq<char>, b: Seq<char>)
    ensures
        !(text_lt(a, b) && text_lt(b, a)),
    decreases a.len(),
{
    if a.len() > 0 && b.len() > 0 && a[0] == b[0] {
        lemma_text_lt_asymmetric(a.drop_first(), b.drop_first());
    }
}

/// Of two different texts, one comes before the other.
pub proof fn lemma_text_lt_total(a: Seq<char>, b: Seq<char>)
    ensures
        a != b ==> text_lt(a, b) || text_lt(b, a),
    decreases a.len(),
{
    if a.len() > 0 && b.len() > 0 && a[0] == b[0] {
        lemma_text_lt_total(a.drop_first(), b.drop_first());
        if a.drop_first() == b.drop_first() {
            assert(a =~= seq![a[0]] + a.drop_first());
            assert(b =~= seq![b[0]] + b.drop_first());
        }
    } else if a.len() == 0 && b.len() == 0 {
        assert(a =~= b);
    }
}

/// The order of texts is transitive.
pub proof fn lemma_text_lt_transitive(a: Seq<char>, b: Seq<char>, c: Seq<char>)
    requires
        text_lt(a, b),
        text_lt(b, c),
    ensures
        text_lt(a, c),
    decreases a.len(),
{
    if a.len() > 0 && b.len() > 0 && c.len() > 0 && a[0] == b[0] && b[0] == c[0] {
        lemma_text_lt_transitive(a.drop_first(), b.drop_first(), c.drop_first());
    }
}

// ---------------------------------------------------------------------------------------------
// Maven coordinates.
// ---------------------------------------------------------------------------------------------

/// The text without the `/` characters at its end.
pub open spec fn trim_end_slashes(s: Seq<char>) -> Seq<char>
    decreases s.len(),
{
    if s.len() > 0 && s.last() == '/' {
        trim_end_slashes(s.drop_last())
    } else {
        s
    }
}

/// The text with each `.` replaced by `/`.
pub open spec fn dots_to_slashes(s: Seq<char>) -> Seq<char> {
    s.map_values(|c: char| if c == '.' { '/' } else { c })
}

/// Trimming the slashes at the end of a text leaves a text that does not end with `/`,
/// that the text starts with, and after which the text has only slashes.
pub proof fn lemma_trim_end_slashes(s: Seq<char>)
    ensures
        trim_end_slashes(s).len() <= s.len(),
        trim_end_slashes(s).len() == 0 || trim_end_slashes(s).last() != '/',
        trim_end_slashes(s) == s.take(trim_end_slashes(s).len() as int),
        forall|i: int| trim_end_slashes(s).len() <= i < s.len() ==> s[i] == '/',
    decreases s.len(),
{
    if s.len() > 0 && s.last() == '/' {
        lemma_trim_end_slashes(s.drop_last());
        let t = trim_end_slashes(s.drop_last());
        assert(s.drop_last().take(t.len() as int) =~= s.take(t.len() as int));
        assert forall|i: int| t.len() <= i < s.len() implies s[i] == '/' by {
            if i < s.len() - 1 {
                assert(s.drop_last()[i] == s[i]);
            }
        }
    } else {
        assert(s.take(s.len() as int) =~= s);
    }
}

/// Removes the `/` characters at the end of a text.
pub fn trimmed_end_slashes(s: &str) -> (r: String)
    ensures
        r@ == trim_end_slashes(s@),
{
    let n = s.unicode_len();
    let mut k: usize = n;
    assert(s@.take(n as int) =~= s@);
    while k > 0 && s.get_char(k - 1) == '/'
        invariant
            n == s@.len(),
            k <= n,
            trim_end_slashes(s@) == trim_end_slashes(s@.take(k as int)),
        decreases k,
    {
        assert(s@.take(k as int).drop_last() =~= s@.take(k as int - 1));
        k = k - 1;
    }
    String::from_str(s.substring_char(0, k))
}

/// Replaces each `.` of a text by `/`.
pub fn replaced_dots(s: &str) -> (r: String)
    ensures
        r@ == dots_to_slashes(s@),
{
    proof {
        reveal_strlit("/");
    }
    let n = s.unicode_len();
    let mut r = String::new();
    let mut i: usize = 0;
    while i < n
        invariant
            n == s@.len(),
            i <= n,
            r@ == dots_to_slashes(s@.take(i as int)),
        decreases n - i,
    {
        proof {
            reveal_strlit("/");
        }
        let c = s.get_char(i);
        assert(s@.subrange(i as int, i as int + 1) =~= seq![c]);
        if c == '.' {
            r.append("/");
        } else {
            r.append(s.substring_char(i, i + 1));
        }
        assert(dots_to_slashes(s@.take(i as int + 1)) =~= dots_to_slashes(s@.take(i as int))
            + seq![if c == '.' { '/' } else { c }]);
        i = i + 1;
    }
    assert(s@.take(n as int) =~= s@);
    r
}

// ---------------------------------------------------------------------------------------------
// Mod file names.
// ---------------------------------------------------------------------------------------------

/// `c` with an ASCII capital letter turned into its small letter.
pub open spec fn ascii_lower(c: char) -> char {
    if 'A' <= c <= 'Z' {
        ((c as u32) + 32) as char
    } else {
        c
    }
}

/// The text with its ASCII capital letters turned into small letters.
pub open spec fn ascii_lowercase(s: Seq<char>) -> Seq<char> {
    s.map_values(|c: char| ascii_lower(c))
}

/// `s` ends with `suffix`.
pub open spec fn ends_with(s: Seq<char>, suffix: Seq<char>) -> bool {
    suffix.len() <= s.len() && s.subrange(s.len() - suffix.len(), s.len() as int) == suffix
}

/// A mod file name that is safe to write into a mods folder on `platform`: one plain path
/// component (it holds no separator of the platform and, on Windows, starts with no drive; a
/// name that ends with `.jar` is then neither empty, `.` nor `..`), whose ASCII-lowercase
/// form ends with `.jar`.
pub open spec fn is_safe_filename(s: Seq<char>, platform: Platform) -> bool {
    &&& forall|i: int| 0 <= i < s.len() ==> !is_separator(#[trigger] s[i], platform)
    &&& !has_drive(s, platform)
    &&& ends_with(ascii_lowercase(s), ".jar"@)
}

proof fn lemma_lower_is(c: char, small: char, capital: char)
    requires
        'a' <= small <= 'z',
        capital as u32 + 32 == small as u32,
    ensures
        (ascii_lower(c) == small) <==> (c == small || c == capital),
{
    if 'A' <= c <= 'Z' {
        assert(ascii_lower(c) as u32 == c as u32 + 32);
    }
}

/// Tells whether a mod file name is safe to write into a mods folder.
pub fn is_safe_filename_exec(s: &str, platform: Platform) -> (r: bool)
    ensures
        r == is_safe_filename(s@, platform),
{
    proof {
        reveal_strlit(".jar");
    }
    let chars = chars_of(s);
    let n = chars.len();
    let mut i: usize = 0;
    while i < n
        invariant
            chars@ == s@,
            n == s@.len(),
            i <= n,
            forall|j: int| 0 <= j < i ==> !is_separator(#[trigger] s@[j], platform),
        decreases n - i,
    {
        let c = chars[i];
        if is_separator_exec(c, platform) {
            assert(!is_safe_filename(s@, platform));
            return false;
        }
        i = i + 1;
    }
    if has_drive_exec(s, platform) || n < 4 {
        return false;
    }
    let c0 = chars[n - 4];
    let c1 = chars[n - 3];
    let c2 = chars[n - 2];
    let c3 = chars[n - 1];
    let r = c0 == '.' && (c1 == 'j' || c1 == 'J') && (c2 == 'a' || c2 == 'A') && (c3 == 'r' || c3
        == 'R');
    proof {
        let low = ascii_lowercase(s@);
        let tail = low.subrange(n - 4, n as int);
        lemma_lower_is(c1, 'j', 'J');
        lemma_lower_is(c2, 'a', 'A');
        lemma_lower_is(c3, 'r', 'R');
        assert(ascii_lower(c0) == '.' <==> c0 == '.');
        assert(tail[0] == ascii_lower(c0));
        assert(tail[1] == ascii_lower(c1));
        assert(tail[2] == ascii_lower(c2));
        assert(tail[3] == ascii_lower(c3));
        if r {
            assert(tail =~= ".jar"@);
        }
        if ends_with(low, ".jar"@) {
            assert(tail[0] == '.');
        }
    }
    r
}

// ---------------------------------------------------------------------------------------------
// Version numbers.
// ---------------------------------------------------------------------------------------------

/// The pieces of a text between its `.` characters, as `str::split('.')` gives them: one
/// more piece than there are dots, empty pieces included.
pub open spec fn split_dots(s: Seq<char>) -> Seq<Seq<char>>
    decreases s.len(),
{
    if s.len() == 0 {
        seq![Seq::<char>::empty()]
    } else {
        let pieces = split_dots(s.drop_last());
        if s.last() == '.' {
            pieces.push(Seq::<char>::empty())
        } else {
            pieces.update(pieces.len() - 1, pieces.last().push(s.last()))
        }
    }
}

/// Splitting a text at its dots gives at least one part.
pub proof fn lemma_split_dots_nonempty(s: Seq<char>)
    ensures
        split_dots(s).len() >= 1,
    decreases s.len(),
{
    if s.len() > 0 {
        lemma_split_dots_nonempty(s.drop_last());
    }
}

/// A version has one number more than it has dots.
pub proof fn lemma_version_parts_len(v: Seq<char>)
    ensures
        version_parts_spec(v).len() == v.filter(|c: char| c == '.').len() + 1,
    decreases v.len(),
{
    reveal(Seq::filter);
    if v.len() > 0 {
        lemma_version_parts_len(v.drop_last());
        lemma_split_dots_nonempty(v.drop_last());
    }
}

/// `c` is a decimal digit.
pub open spec fn is_digit(c: char) -> bool {
    '0' <= c <= '9'
}

/// The value of a decimal digit.
pub open spec fn digit_value(c: char) -> nat {
    (c as u32 - '0' as u32) as nat
}

/// The value of a string of decimal digits.
pub open spec fn digits_value(s: Seq<char>) -> nat
    decreases s.len(),
{
    if s.len() == 0 {
        0
    } else {
        digits_value(s.drop_last()) * 10 + digit_value(s.last())
    }
}

/// What `str::parse::<u32>` gives: an optional `+`, then at least one decimal digit and
/// nothing else, for a value that fits in a `u32`.
pub open spec fn parse_u32_spec(s: Seq<char>) -> Option<u32> {
    if s.len() > 0 && s[0] == '+' {
        parse_digits_spec(s.drop_first())
    } else {
        parse_digits_spec(s)
    }
}

/// At least one decimal digit and nothing else, for a value that fits in a `u32`.
pub open spec fn parse_digits_spec(digits: Seq<char>) -> Option<u32> {
    if digits.len() > 0 && (forall|i: int| 0 <= i < digits.len() ==> is_digit(#[trigger] digits[i]))
        && digits_value(digits) <= u32::MAX {
        Some(digits_value(digits) as u32)
    } else {
        None
    }
}

/// The numbers of a version: each piece between dots parsed as a `u32`, or 0 where it is
/// no such number.
pub open spec fn version_parts_spec(v: Seq<char>) -> Seq<u32> {
    split_dots(v).map_values(
        |p: Seq<char>|
            match parse_u32_spec(p) {
                Some(n) => n,
                None => 0u32,
            },
    )
}

proof fn lemma_digits_value_grows(s: Seq<char>, k: int)
    requires
        0 <= k <= s.len(),
    ensures
        digits_value(s.take(k)) <= digits_value(s),
    decreases s.len(),
{
    if k < s.len() {
        assert(s.drop_last().take(k) =~= s.take(k));
        lemma_digits_value_grows(s.drop_last(), k);
    } else {
        assert(s.take(k) =~= s);
    }
}

/// Parses decimal digits after position `start`, as a `u32`.
fn parse_digits(chars: &Vec<char>, start: usize) -> (r: Option<u32>)
    requires
        start <= chars.len(),
    ensures
        r == parse_digits_spec(chars@.skip(start as int)),
{
    let ghost digits = chars@.skip(start as int);
    if start == chars.len() {
        return None;
    }
    let mut value: u32 = 0;
    let mut fits = true;
    let mut i: usize = start;
    while i < chars.len()
        invariant
            digits == chars@.skip(start as int),
            start <= i <= chars.len(),
            forall|j: int| 0 <= j < i - start ==> is_digit(#[trigger] digits[j]),
            fits ==> value == digits_value(digits.take(i - start)),
            !fits ==> digits_value(digits.take(i - start)) > u32::MAX,
        decreases chars.len() - i,
    {
        let c = chars[i];
        if !('0' <= c && c <= '9') {
            assert(!is_digit(digits[i - start]));
            return None;
        }
        let d = (c as u32) - ('0' as u32);
        let ghost before = digits.take(i - start);
        assert(digits.take(i - start + 1).drop_last() =~= before);
        assert(digits.take(i - start + 1).last() == c);
        if fits {
            if value > (u32::MAX - d) / 10 {
                fits = false;
            } else {
                value = value * 10 + d;
            }
        }
        proof {
            if !fits {
                assert(digits_value(digits.take(i - start + 1)) >= digits_value(before) * 10);
            }
        }
        i = i + 1;
    }
    assert(digits.take(i - start) =~= digits);
    if fits {
        Some(value)
    } else {
        None
    }
}

/// Parses a text as `str::parse::<u32>` does.
pub fn parse_u32(chars: &Vec<char>) -> (r: Option<u32>)
    ensures
        r == parse_u32_spec(chars@),
{
    if chars.len() > 0 && chars[0] == '+' {
        assert(chars@.skip(1) =~= chars@.drop_first());
        parse_digits(chars, 1)
    } else {
        assert(chars@.skip(0) =~= chars@);
        parse_digits(chars, 0)
    }
}

/// The views of a list of character lists.
pub open spec fn char_lists(v: Seq<Vec<char>>) -> Seq<Seq<char>> {
    v.map_values(|p: Vec<char>| p@)
}

/// The numbers of a version: each piece between dots parsed as a `u32`, or 0 where it is
/// no such number.
pub fn version_parts(value: &str) -> (r: Vec<u32>)
    ensures
        r@ == version_parts_spec(value@),
{
    let chars = chars_of(value);
    let mut pieces: Vec<Vec<char>> = Vec::new();
    let mut current: Vec<char> = Vec::new();
    let mut i: usize = 0;
    assert(chars@.take(0) =~= Seq::<char>::empty());
    assert(char_lists(pieces@).push(current@) =~= seq![Seq::<char>::empty()]);
    while i < chars.len()
        invariant
            chars@ == value@,
            i <= chars.len(),
            char_lists(pieces@).push(current@) == split_dots(chars@.take(i as int)),
        decreases chars.len() - i,
    {
        let c = chars[i];
        let ghost prev = chars@.take(i as int);
        assert(chars@.take(i as int + 1).drop_last() =~= prev);
        if c == '.' {
            let done = current;
            pieces.push(done);
            current = Vec::new();
            assert(char_lists(pieces@).push(current@) =~= split_dots(prev).push(
                Seq::<char>::empty(),
            ));
        } else {
            current.push(c);
            assert(char_lists(pieces@).push(current@) =~= split_dots(prev).update(
                split_dots(prev).len() - 1,
                split_dots(prev).last().push(c),
            ));
        }
        i = i + 1;
    }
    assert(chars@.take(chars.len() as int) =~= chars@);
    pieces.push(current);
    let ghost all = split_dots(value@);
    assert(char_lists(pieces@) =~= all);
    let mut r: Vec<u32> = Vec::new();
    let mut k: usize = 0;
    while k < pieces.len()
        invariant
            char_lists(pieces@) == all,
            all == split_dots(value@),
            k <= pieces.len(),
            r@ == version_parts_spec(value@).take(k as int),
        decreases pieces.len() - k,
    {
        let n = match parse_u32(&pieces[k]) {
            Some(n) => n,
            None => 0,
        };
        assert(pieces@[k as int]@ == all[k as int]);
        r.push(n);
        k = k + 1;
        assert(r@ =~= version_parts_spec(value@).take(k as int));
    }
    assert(version_parts_spec(value@).take(k as int) =~= version_parts_spec(value@));
    r
}

/// `a` comes strictly before `b` in the lexicographic order of number lists, a proper
/// prefix first (the order of `Vec<u32>` in std).
pub open spec fn parts_lt(a: Seq<u32>, b: Seq<u32>) -> bool
    decreases a.len(),
{
    if a.len() == 0 {
        b.len() > 0
    } else if b.len() == 0 {
        false
    } else if a[0] != b[0] {
        a[0] < b[0]
    } else {
        parts_lt(a.drop_first(), b.drop_first())
    }
}

/// Tells whether `a` comes strictly before `b` in the lexicographic order of number lists.
pub fn parts_less(a: &Vec<u32>, b: &Vec<u32>) -> (r: bool)
    ensures
        r == parts_lt(a@, b@),
{
    let mut i: usize = 0;
    while i < a.len() && i < b.len() && a[i] == b[i]
        invariant
            i <= a.len(),
            i <= b.len(),
            parts_lt(a@, b@) == parts_lt(a@.skip(i as int), b@.skip(i as int)),
        decreases a.len() - i,
    {
        assert(a@.skip(i as int).drop_first() =~= a@.skip(i as int + 1));
        assert(b@.skip(i as int).drop_first() =~= b@.skip(i as int + 1));
        i = i + 1;
    }
    if i == a.len() {
        i < b.len()
    } else if i == b.len() {
        false
    } else {
        a[i] < b[i]
    }
}

/// Of two versions, at most one comes before the other.
pub proof fn lemma_parts_lt_asymmetric(a: Seq<u32>, b: Seq<u32>)
    ensures
        !(parts_lt(a, b) && parts_lt(b, a)),
    decreases a.len(),
{
    if a.len() > 0 && b.len() > 0 && a[0] == b[0] {
        lemma_parts_lt_asymmetric(a.drop_first(), b.drop_first());
    }
}

/// Of two different versions, one comes before the other.
pub proof fn lemma_parts_lt_total(a: Seq<u32>, b: Seq<u32>)
    ensures
        a != b ==> parts_lt(a, b) || parts_lt(b, a),
    decreases a.len(),
{
    if a.len() > 0 && b.len() > 0 && a[0] == b[0] {
        lemma_parts_lt_total(a.drop_first(), b.drop_first());
        if a.drop_first() == b.drop_first() {
            assert(a =~= seq![a[0]] + a.drop_first());
            assert(b =~= seq![b[0]] + b.drop_first());
        }
    } else if a.len() == 0 && b.len() == 0 {
        assert(a =~= b);
    }
}

/// The order of versions is transitive.
pub proof fn lemma_parts_lt_transitive(a: Seq<u32>, b: Seq<u32>, c: Seq<u32>)
    requires
        parts_lt(a, b),
        parts_lt(b, c),
    ensures
        parts_lt(a, c),
    decreases a.len(),
{
    if a.len() > 0 && b.len() > 0 && c.len() > 0 && a[0] == b[0] && b[0] == c[0] {
        lemma_parts_lt_transitive(a.drop_first(), b.drop_first(), c.drop_first());
    }
}

// ---------------------------------------------------------------------------------------------
// Selection boxes.
// ---------------------------------------------------------------------------------------------

/// The text shown in a selection box: the chosen value, or a prompt when nothing is chosen.
pub open spec fn selection_text_spec(value: Seq<char>) -> Seq<char> {
    if value.len() == 0 {
        "Select\u{2026}"@
    } else {
        value
    }
}

/// The text shown in a selection box: the chosen value, or a prompt when nothing is chosen.
pub fn selection_text(value: &str) -> (r: &str)
    ensures
        r@ == selection_text_spec(value@),
{
    if value.is_empty() {
        "Select\u{2026}"
    } else {
        value
    }
}

} // verus!
