use vstd::prelude::*;

verus! {

/// `String::push` of the standard library: puts one char at the end of the
/// string. Taken on trust.
#[verifier::external_body]
pub(crate) fn push_char(s: &mut String, c: char)
    ensures
        final(s)@ == old(s)@.push(c),
{
    s.push(c);
}

/// The string in lower case as the standard library makes it: the result
/// of `str::to_lowercase`.
pub uninterp spec fn lowercase(s: Seq<char>) -> Seq<char>;

/// `str::to_lowercase` of the standard library. Taken on trust: what it
/// returns is what `lowercase` names.
#[verifier::external_body]
pub(crate) fn to_lowercase(s: &str) -> (r: String)
    ensures
        r@ == lowercase(s@),
{
    s.to_lowercase()
}

/// The chars of a string.
pub fn chars_of(s: &str) -> (r: Vec<char>)
    ensures
        r@ == s@,
{
    let n = s.unicode_len();
    let mut r: Vec<char> = Vec::new();
    let mut i: usize = 0;
    while i < n
        invariant
            i <= n,
            n == s@.len(),
            r@ == s@.take(i as int),
        decreases n - i,
    {
        r.push(s.get_char(i));
        assert(r@ =~= s@.take(i + 1));
        i += 1;
    }
    assert(s@.take(n as int) =~= s@);
    r
}

/// The string made of the chars.
pub fn string_of(chars: &Vec<char>) -> (r: String)
    ensures
        r@ == chars@,
{
    let mut r = String::new();
    let mut i: usize = 0;
    while i < chars.len()
        invariant
            i <= chars.len(),
            r@ == chars@.take(i as int),
        decreases chars.len() - i,
    {
        push_char(&mut r, chars[i]);
        assert(r@ =~= chars@.take(i + 1));
        i += 1;
    }
    assert(chars@.take(i as int) =~= chars@);
    r
}

/// The lower-case letter of an upper-case letter from A to Z, any other
/// char as it is.
pub open spec fn lower(c: char) -> char {
    if 'A' <= c && c <= 'Z' {
        ((c as u8) + 32) as char
    } else {
        c
    }
}

/// The lower-case letter of an upper-case letter from A to Z, any other
/// char as it is.
pub fn to_lower(c: char) -> (r: char)
    ensures
        r == lower(c),
{
    if 'A' <= c && c <= 'Z' {
        ((c as u8) + 32) as char
    } else {
        c
    }
}

/// The chars with each upper-case letter from A to Z made lower-case.
pub open spec fn lowered(s: Seq<char>) -> Seq<char> {
    Seq::new(s.len(), |i: int| lower(s[i]))
}

/// The chars with each space replaced by a hyphen.
pub open spec fn hyphenated(s: Seq<char>) -> Seq<char> {
    Seq::new(
        s.len(),
        |i: int|
            if s[i] == ' ' {
                '-'
            } else {
                s[i]
            },
    )
}

/// Puts the chars of `s` at the end of `v`.
pub fn push_str(v: &mut Vec<char>, s: &str)
    ensures
        final(v)@ == old(v)@ + s@,
{
    let mut more = chars_of(s);
    v.append(&mut more);
}

/// Puts the chars of `more` at the end of `v`.
pub fn push_chars(v: &mut Vec<char>, more: &Vec<char>)
    ensures
        final(v)@ == old(v)@ + more@,
{
    let mut i: usize = 0;
    while i < more.len()
        invariant
            i <= more.len(),
            v@ == old(v)@ + more@.take(i as int),
        decreases more.len() - i,
    {
        v.push(more[i]);
        assert(v@ =~= old(v)@ + more@.take(i + 1));
        i += 1;
    }
    assert(more@.take(i as int) =~= more@);
}

/// Whether the two lists hold the same chars.
pub fn same_chars(a: &Vec<char>, b: &Vec<char>) -> (r: bool)
    ensures
        r == (a@ == b@),
{
    if a.len() != b.len() {
        return false;
    }
    let mut i: usize = 0;
    while i < a.len()
        invariant
            i <= a.len(),
            a.len() == b.len(),
            forall|j: int| 0 <= j < i ==> a@[j] == b@[j],
        decreases a.len() - i,
    {
        if a[i] != b[i] {
            return false;
        }
        i += 1;
    }
    assert(a@ =~= b@);
    true
}

/// Whether the char is a digit from 0 to 9.
pub open spec fn is_digit(c: char) -> bool {
    '0' <= c && c <= '9'
}

/// Whether the char is a letter from A to Z, in either case, or a digit.
pub open spec fn is_alphanumeric(c: char) -> bool {
    ('a' <= c && c <= 'z') || ('A' <= c && c <= 'Z') || is_digit(c)
}

/// Whether the char is a letter from A to Z, in either case, or a digit.
pub fn is_ascii_alphanumeric(c: char) -> (r: bool)
    ensures
        r == is_alphanumeric(c),
{
    ('a' <= c && c <= 'z') || ('A' <= c && c <= 'Z') || ('0' <= c && c <= '9')
}

/// The value of a digit.
pub open spec fn digit_value(c: char) -> int {
    c as u32 - '0' as u32
}

/// The digit of a value below 10.
pub open spec fn digit_of(d: int) -> char {
    ('0' as u8 + d as u8) as char
}

/// The digit of a value below 10.
pub fn digit_char(d: u8) -> (c: char)
    requires
        d < 10,
    ensures
        c == digit_of(d as int),
        is_digit(c),
        digit_value(c) == d,
{
    ('0' as u8 + d) as char
}

/// The number as it is written with at least two digits.
pub open spec fn two_digits(n: u8) -> Seq<char> {
    if n < 100 {
        seq![digit_of(n as int / 10), digit_of(n as int % 10)]
    } else {
        seq![digit_of(n as int / 100), digit_of(n as int / 10 % 10), digit_of(n as int % 10)]
    }
}

/// Puts the number, written with at least two digits, at the end of `v`.
pub fn push_two_digits(v: &mut Vec<char>, n: u8)
    ensures
        final(v)@ == old(v)@ + two_digits(n),
{
    if n >= 100 {
        v.push(digit_char(n / 100));
    }
    v.push(digit_char(n / 10 % 10));
    v.push(digit_char(n % 10));
    assert(v@ =~= old(v)@ + two_digits(n));
}

/// The number that two chars spell: two digits, or a plus sign and a digit.
pub open spec fn two_char_number(a: char, b: char) -> Option<u8> {
    if is_digit(a) && is_digit(b) {
        Some((10 * digit_value(a) + digit_value(b)) as u8)
    } else if a == '+' && is_digit(b) {
        Some(digit_value(b) as u8)
    } else {
        None
    }
}

/// The number that two chars spell.
pub fn parse_two_chars(a: char, b: char) -> (r: Option<u8>)
    ensures
        r == two_char_number(a, b),
{
    if '0' <= b && b <= '9' {
        let low = (b as u32 - '0' as u32) as u8;
        if '0' <= a && a <= '9' {
            let high = (a as u32 - '0' as u32) as u8;
            Some(10 * high + low)
        } else if a == '+' {
            Some(low)
        } else {
            None
        }
    } else {
        None
    }
}

/// Whether `a` comes before `b` in the order of the dictionary, chars
/// compared by their numbers.
pub open spec fn comes_before(a: Seq<char>, b: Seq<char>) -> bool
    decreases a.len(),
{
    if b.len() == 0 {
        false
    } else if a.len() == 0 {
        true
    } else if a[0] != b[0] {
        a[0] < b[0]
    } else {
        comes_before(a.drop_first(), b.drop_first())
    }
}

/// Whether `a` comes before `b` in the order of the dictionary.
pub fn is_less(a: &Vec<char>, b: &Vec<char>) -> (r: bool)
    ensures
        r == comes_before(a@, b@),
{
    let mut i: usize = 0;
    assert(a@.skip(0) =~= a@);
    assert(b@.skip(0) =~= b@);
    while i < a.len() && i < b.len()
        invariant
            i <= a.len(),
            i <= b.len(),
            comes_before(a@, b@) == comes_before(a@.skip(i as int), b@.skip(i as int)),
        decreases a.len() - i,
    {
        assert(a@.skip(i as int)[0] == a@[i as int]);
        assert(b@.skip(i as int)[0] == b@[i as int]);
        if a[i] != b[i] {
            return a[i] < b[i];
        }
        assert(a@.skip(i as int).drop_first() =~= a@.skip(i + 1));
        assert(b@.skip(i as int).drop_first() =~= b@.skip(i + 1));
        i += 1;
    }
    i < b.len()
}

/// Whether the char is white space: one of the chars to which Unicode gives
/// the property `White_Space`. These are the tab, the line feed, the
/// vertical tab, the form feed and the carriage return, the space, the next
/// line, the no-break space, the Ogham space mark, the spaces from the en
/// quad to the hair space, the line and the paragraph separator, the narrow
/// no-break space, the medium mathematical space and the ideographic space.
pub open spec fn is_whitespace(c: char) -> bool {
    let n = c as u32;
    ||| 0x09 <= n <= 0x0d
    ||| n == 0x20
    ||| n == 0x85
    ||| n == 0xa0
    ||| n == 0x1680
    ||| 0x2000 <= n <= 0x200a
    ||| n == 0x2028
    ||| n == 0x2029
    ||| n == 0x202f
    ||| n == 0x205f
    ||| n == 0x3000
}

/// `char::is_whitespace` of the standard library, which tells whether a char
/// has the Unicode property `White_Space`. Taken on trust: the chars with
/// that property are those that `is_whitespace` lists.
#[verifier::external_body]
pub(crate) fn char_is_whitespace(c: char) -> (b: bool)
    ensures
        b == is_whitespace(c),
{
    c.is_whitespace()
}

/// The number of white-space chars at the start.
pub open spec fn leading_space(s: Seq<char>) -> nat
    decreases s.len(),
{
    if s.len() > 0 && is_whitespace(s[0]) {
        1 + leading_space(s.drop_first())
    } else {
        0
    }
}

/// The number of white-space chars at the end.
pub open spec fn trailing_space(s: Seq<char>) -> nat
    decreases s.len(),
{
    if s.len() > 0 && is_whitespace(s.last()) {
        1 + trailing_space(s.drop_last())
    } else {
        0
    }
}

/// The chars without the white space at the end.
pub open spec fn trimmed_end(s: Seq<char>) -> Seq<char> {
    s.take(s.len() - trailing_space(s))
}

/// The chars without the white space at the start.
pub open spec fn trimmed_start(s: Seq<char>) -> Seq<char> {
    s.skip(leading_space(s) as int)
}

/// The chars without the white space at both ends.
pub open spec fn trimmed(s: Seq<char>) -> Seq<char> {
    trimmed_end(trimmed_start(s))
}

pub proof fn lemma_space_is_bounded(s: Seq<char>)
    ensures
        leading_space(s) <= s.len(),
        trailing_space(s) <= s.len(),
    decreases s.len(),
{
    if s.len() > 0 {
        lemma_space_is_bounded(s.drop_first());
        lemma_space_is_bounded(s.drop_last());
    }
}

/// The chars from `from` up to `to`.
pub fn slice(s: &Vec<char>, from: usize, to: usize) -> (r: Vec<char>)
    requires
        from <= to <= s@.len(),
    ensures
        r@ == s@.subrange(from as int, to as int),
{
    let mut r: Vec<char> = Vec::new();
    let mut i: usize = from;
    while i < to
        invariant
            from <= i <= to <= s@.len(),
            r@ == s@.subrange(from as int, i as int),
        decreases to - i,
    {
        r.push(s[i]);
        assert(r@ =~= s@.subrange(from as int, i + 1));
        i += 1;
    }
    r
}

/// The number of white-space chars at the start.
pub fn count_leading_space(s: &Vec<char>) -> (n: usize)
    ensures
        n == leading_space(s@),
        n <= s@.len(),
{
    let mut i: usize = 0;
    assert(s@.skip(0) =~= s@);
    while i < s.len() && char_is_whitespace(s[i])
        invariant
            i <= s@.len(),
            leading_space(s@) == i + leading_space(s@.skip(i as int)),
        decreases s.len() - i,
    {
        assert(s@.skip(i as int)[0] == s@[i as int]);
        assert(s@.skip(i as int).drop_first() =~= s@.skip(i + 1));
        i += 1;
    }
    proof {
        if i < s.len() {
            assert(s@.skip(i as int)[0] == s@[i as int]);
        }
    }
    i
}

/// The number of white-space chars at the end of the first `len` chars.
pub fn count_trailing_space(s: &Vec<char>, len: usize) -> (n: usize)
    requires
        len <= s@.len(),
    ensures
        n == trailing_space(s@.take(len as int)),
        n <= len,
{
    let mut i: usize = len;
    while i > 0 && char_is_whitespace(s[i - 1])
        invariant
            i <= len <= s@.len(),
            trailing_space(s@.take(len as int)) == (len - i) + trailing_space(s@.take(i as int)),
        decreases i,
    {
        assert(s@.take(i as int).last() == s@[i - 1]);
        assert(s@.take(i as int).drop_last() =~= s@.take(i - 1));
        i -= 1;
    }
    proof {
        if i > 0 {
            assert(s@.take(i as int).last() == s@[i - 1]);
        }
    }
    len - i
}

/// The chars without the white space at both ends.
pub fn trim(s: &Vec<char>) -> (r: Vec<char>)
    ensures
        r@ == trimmed(s@),
{
    let a = count_leading_space(s);
    let rest = slice(s, a, s.len());
    assert(rest@ =~= trimmed_start(s@));
    let b = count_trailing_space(&rest, rest.len());
    assert(rest@.take(rest@.len() as int) =~= rest@);
    let r = slice(&rest, 0, rest.len() - b);
    assert(r@ =~= trimmed_end(rest@));
    r
}

/// The chars without the white space at the end.
pub fn trim_end(s: &Vec<char>) -> (r: Vec<char>)
    ensures
        r@ == trimmed_end(s@),
{
    let b = count_trailing_space(s, s.len());
    assert(s@.take(s@.len() as int) =~= s@);
    let r = slice(s, 0, s.len() - b);
    assert(r@ =~= trimmed_end(s@));
    r
}

/// Whether `pat` stands in `s` at place `i`.
pub open spec fn occurs_at(s: Seq<char>, pat: Seq<char>, i: int) -> bool {
    0 <= i && i + pat.len() <= s.len() && s.subrange(i, i + pat.len()) == pat
}

/// Whether `i` is the first place from `from` on at which `pat` stands in
/// `s`.
pub open spec fn is_first_from(s: Seq<char>, pat: Seq<char>, from: int, i: int) -> bool {
    &&& from <= i
    &&& occurs_at(s, pat, i)
    &&& forall|j: int| from <= j < i ==> !occurs_at(s, pat, j)
}

/// Whether `pat` stands in `s` somewhere from `from` on.
pub open spec fn found_from(s: Seq<char>, pat: Seq<char>, from: int) -> bool {
    exists|i: int| is_first_from(s, pat, from, i)
}

/// The first place from `from` on at which `pat` stands in `s`, where it
/// does.
pub open spec fn first_from(s: Seq<char>, pat: Seq<char>, from: int) -> int {
    choose|i: int| is_first_from(s, pat, from, i)
}

/// Whether `pat` stands somewhere in `s`.
pub open spec fn has_pattern(s: Seq<char>, pat: Seq<char>) -> bool {
    found_from(s, pat, 0)
}

/// Whether `s` starts with `pat`.
pub open spec fn starts_with(s: Seq<char>, pat: Seq<char>) -> bool {
    occurs_at(s, pat, 0)
}

/// Whether `s` ends with `pat`.
pub open spec fn ends_with(s: Seq<char>, pat: Seq<char>) -> bool {
    occurs_at(s, pat, s.len() - pat.len())
}

/// Whether `pat` stands in `s` at place `i`.
pub fn matches_at(s: &Vec<char>, pat: &Vec<char>, i: usize) -> (r: bool)
    ensures
        r == occurs_at(s@, pat@, i as int),
{
    if pat.len() > s.len() || i > s.len() - pat.len() {
        return false;
    }
    let mut k: usize = 0;
    while k < pat.len()
        invariant
            k <= pat@.len(),
            i + pat@.len() <= s@.len(),
            s@.len() <= usize::MAX,
            forall|j: int| 0 <= j < k ==> s@[i + j] == pat@[j],
        decreases pat.len() - k,
    {
        if s[i + k] != pat[k] {
            assert(s@.subrange(i as int, i + pat@.len())[k as int] != pat@[k as int]);
            return false;
        }
        k += 1;
    }
    assert(s@.subrange(i as int, i + pat@.len()) =~= pat@);
    true
}

/// The first place from `from` on at which `pat` stands in `s`.
pub fn find(s: &Vec<char>, pat: &Vec<char>, from: usize) -> (r: Option<usize>)
    ensures
        match r {
            Some(i) => is_first_from(s@, pat@, from as int, i as int) && first_from(
                s@,
                pat@,
                from as int,
            ) == i,
            None => !found_from(s@, pat@, from as int),
        },
{
    if from > s.len() {
        return None;
    }
    let mut i: usize = from;
    while i < s.len()
        invariant
            from <= i <= s@.len(),
            forall|j: int| from <= j < i ==> !occurs_at(s@, pat@, j),
        decreases s.len() - i,
    {
        if matches_at(s, pat, i) {
            assert(is_first_from(s@, pat@, from as int, i as int));
            return Some(i);
        }
        i += 1;
    }
    if matches_at(s, pat, i) {
        assert(is_first_from(s@, pat@, from as int, i as int));
        return Some(i);
    }
    None
}

/// `s` without the places at which `pat` stands, taken from the left.
pub open spec fn without(s: Seq<char>, pat: Seq<char>) -> Seq<char>
    decreases s.len(),
{
    if pat.len() > 0 && has_pattern(s, pat) {
        let i = first_from(s, pat, 0);
        if 0 <= i && i + pat.len() <= s.len() {
            s.take(i) + without(s.skip(i + pat.len()), pat)
        } else {
            s
        }
    } else {
        s
    }
}

/// The parts of `s` between the places at which `pat` stands, taken from
/// the left.
pub open spec fn split_by(s: Seq<char>, pat: Seq<char>) -> Seq<Seq<char>>
    decreases s.len(),
{
    if pat.len() > 0 && has_pattern(s, pat) {
        let i = first_from(s, pat, 0);
        if 0 <= i && i + pat.len() <= s.len() {
            seq![s.take(i)] + split_by(s.skip(i + pat.len()), pat)
        } else {
            seq![s]
        }
    } else {
        seq![s]
    }
}

/// A place in the rest of `s` from `k` on is the same place in `s`, counted
/// from `k`.
pub proof fn lemma_occurs_in_rest(s: Seq<char>, pat: Seq<char>, k: int)
    requires
        0 <= k <= s.len(),
    ensures
        forall|j: int| occurs_at(s.skip(k), pat, j) <==> j >= 0 && occurs_at(s, pat, j + k),
{
    assert forall|j: int| occurs_at(s.skip(k), pat, j) <==> j >= 0 && occurs_at(
        s,
        pat,
        j + k,
    ) by {
        if 0 <= j && j + pat.len() <= s.len() - k {
            assert(s.skip(k).subrange(j, j + pat.len()) =~= s.subrange(j + k, j + k + pat.len()));
        }
    }
}

/// What `find` tells of `s` from `k` on holds of the rest of `s` from `k`.
pub proof fn lemma_find_in_rest(s: Seq<char>, pat: Seq<char>, k: int)
    requires
        0 <= k <= s.len(),
    ensures
        found_from(s, pat, k) <==> has_pattern(s.skip(k), pat),
        found_from(s, pat, k) ==> first_from(s, pat, k) == first_from(s.skip(k), pat, 0) + k,
{
    lemma_occurs_in_rest(s, pat, k);
    if found_from(s, pat, k) {
        let i = first_from(s, pat, k);
        assert(is_first_from(s.skip(k), pat, 0, i - k)) by {
            assert forall|j: int| 0 <= j < i - k implies !occurs_at(s.skip(k), pat, j) by {
                assert(!occurs_at(s, pat, j + k));
            }
        }
        let found = first_from(s.skip(k), pat, 0);
        assert(is_first_from(s.skip(k), pat, 0, found));
        if found < i - k {
            assert(!occurs_at(s.skip(k), pat, found));
        } else if i - k < found {
            assert(!occurs_at(s.skip(k), pat, i - k));
        }
    }
    if has_pattern(s.skip(k), pat) {
        let found = first_from(s.skip(k), pat, 0);
        assert(is_first_from(s, pat, k, found + k)) by {
            assert forall|j: int| k <= j < found + k implies !occurs_at(s, pat, j) by {
                assert(!occurs_at(s.skip(k), pat, j - k));
            }
        }
    }
}

/// `s` without the places at which `pat` stands.
pub fn remove_all(s: &Vec<char>, pat: &Vec<char>) -> (r: Vec<char>)
    requires
        pat@.len() > 0,
    ensures
        r@ == without(s@, pat@),
{
    let mut r: Vec<char> = Vec::new();
    let mut k: usize = 0;
    let len = s.len();
    assert(s@.skip(0) =~= s@);
    assert(r@ + without(s@, pat@) =~= without(s@, pat@));
    loop
        invariant
            k <= s@.len(),
            s@.len() <= usize::MAX,
            pat@.len() > 0,
            without(s@, pat@) == r@ + without(s@.skip(k as int), pat@),
        decreases s@.len() - k,
    {
        proof {
            lemma_find_in_rest(s@, pat@, k as int);
        }
        match find(s, pat, k) {
            Some(i) => {
                let mut part = slice(s, k, i);
                proof {
                    let rest = s@.skip(k as int);
                    assert(rest.take(i - k) =~= s@.subrange(k as int, i as int));
                    assert(rest.skip(i - k + pat@.len()) =~= s@.skip(i + pat@.len()));
                    assert((r@ + part@) + without(s@.skip(i + pat@.len()), pat@) =~= r@ + (part@
                        + without(s@.skip(i + pat@.len()), pat@)));
                }
                r.append(&mut part);
                k = i + pat.len();
            },
            None => {
                let mut part = slice(s, k, s.len());
                proof {
                    assert(part@ =~= s@.skip(k as int));
                }
                r.append(&mut part);
                return r;
            },
        }
    }
}

/// The parts of `s` between the places at which `pat` stands.
pub fn split(s: &Vec<char>, pat: &Vec<char>) -> (r: Vec<Vec<char>>)
    requires
        pat@.len() > 0,
    ensures
        r@.len() == split_by(s@, pat@).len(),
        forall|i: int| 0 <= i < r@.len() ==> (#[trigger] r@[i])@ == split_by(s@, pat@)[i],
{
    let mut r: Vec<Vec<char>> = Vec::new();
    let mut k: usize = 0;
    let ghost mut done: Seq<Seq<char>> = Seq::empty();
    let len = s.len();
    assert(s@.skip(0) =~= s@);
    assert(done + split_by(s@, pat@) =~= split_by(s@, pat@));
    loop
        invariant
            k <= s@.len(),
            s@.len() <= usize::MAX,
            pat@.len() > 0,
            done.len() == r@.len(),
            forall|i: int| 0 <= i < r@.len() ==> (#[trigger] r@[i])@ == done[i],
            split_by(s@, pat@) == done + split_by(s@.skip(k as int), pat@),
        decreases s@.len() - k,
    {
        proof {
            lemma_find_in_rest(s@, pat@, k as int);
        }
        match find(s, pat, k) {
            Some(i) => {
                let part = slice(s, k, i);
                proof {
                    let rest = s@.skip(k as int);
                    assert(rest.take(i - k) =~= s@.subrange(k as int, i as int));
                    assert(rest.skip(i - k + pat@.len()) =~= s@.skip(i + pat@.len()));
                    assert((done + seq![part@]) + split_by(s@.skip(i + pat@.len()), pat@) =~= done
                        + (seq![part@] + split_by(s@.skip(i + pat@.len()), pat@)));
                    done = done.push(part@);
                    assert(done =~= done.drop_last() + seq![part@]);
                }
                r.push(part);
                k = i + pat.len();
            },
            None => {
                let part = slice(s, k, s.len());
                proof {
                    assert(part@ =~= s@.skip(k as int));
                    done = done.push(part@);
                    assert(done =~= done.drop_last() + seq![part@]);
                }
                r.push(part);
                return r;
            },
        }
    }
}

} // verus!
