//! Text as sequences of characters: trimming, ASCII case, cutting at a separator, order, and
//! decimal numbers.
use vstd::prelude::*;
use vstd::string::*;

verus! {

/// The Unicode `White_Space` characters.
pub open spec fn is_space(c: char) -> bool {
    ||| '\u{9}' <= c <= '\u{d}'
    ||| c == ' '
    ||| c == '\u{85}'
    ||| c == '\u{a0}'
    ||| c == '\u{1680}'
    ||| '\u{2000}' <= c <= '\u{200a}'
    ||| c == '\u{2028}'
    ||| c == '\u{2029}'
    ||| c == '\u{202f}'
    ||| c == '\u{205f}'
    ||| c == '\u{3000}'
}

/// `s` without its leading white space.
pub open spec fn trimmed_start(s: Seq<char>) -> Seq<char>
    decreases s.len(),
{
    if s.len() > 0 && is_space(s[0]) {
        trimmed_start(s.drop_first())
    } else {
        s
    }
}

/// `s` without its trailing white space.
pub open spec fn trimmed_end(s: Seq<char>) -> Seq<char>
    decreases s.len(),
{
    if s.len() > 0 && is_space(s.last()) {
        trimmed_end(s.drop_last())
    } else {
        s
    }
}

/// `s` without the white space around it.
pub open spec fn trimmed(s: Seq<char>) -> Seq<char> {
    trimmed_end(trimmed_start(s))
}

/// Whether `s` holds nothing but white space.
pub open spec fn is_blank(s: Seq<char>) -> bool {
    trimmed(s).len() == 0
}

/// `c` in upper case, if it is an ASCII letter.
pub open spec fn upper_char(c: char) -> char {
    if 'a' <= c <= 'z' {
        (c as u8 - 32) as char
    } else {
        c
    }
}

/// `c` in lower case, if it is an ASCII letter.
pub open spec fn lower_char(c: char) -> char {
    if 'A' <= c <= 'Z' {
        (c as u8 + 32) as char
    } else {
        c
    }
}

/// `s` with its ASCII letters in upper case.
pub open spec fn uppercase(s: Seq<char>) -> Seq<char> {
    s.map_values(|c: char| upper_char(c))
}

/// `s` with its ASCII letters in lower case.
pub open spec fn lowercase(s: Seq<char>) -> Seq<char> {
    s.map_values(|c: char| lower_char(c))
}

/// Whether `a` and `b` differ at most in the case of their ASCII letters.
pub open spec fn alike(a: Seq<char>, b: Seq<char>) -> bool {
    lowercase(a) == lowercase(b)
}

/// The index of the first `c` in `s`, or the length of `s` where there is none.
pub open spec fn position(s: Seq<char>, c: char) -> nat
    decreases s.len(),
{
    if s.len() == 0 || s[0] == c {
        0
    } else {
        1 + position(s.drop_first(), c)
    }
}

/// What stands before and after the first `c` in `s`.
pub open spec fn cut(s: Seq<char>, c: char) -> Option<(Seq<char>, Seq<char>)> {
    let p = position(s, c) as int;
    if p < s.len() {
        Some((s.take(p), s.skip(p + 1)))
    } else {
        None
    }
}

/// The parts of `s` between the separators `c`.
pub open spec fn pieces(s: Seq<char>, c: char) -> Seq<Seq<char>>
    decreases s.len(),
{
    let p = position(s, c) as int;
    if p < s.len() {
        seq![s.take(p)] + pieces(s.skip(p + 1), c)
    } else {
        seq![s]
    }
}

/// The parts that are not blank, trimmed.
pub open spec fn kept(parts: Seq<Seq<char>>) -> Seq<Seq<char>> {
    parts.map_values(|part: Seq<char>| trimmed(part)).filter(|part: Seq<char>| part.len() > 0)
}

/// Whether `part` stands somewhere in `s`.
pub open spec fn holds_part(s: Seq<char>, part: Seq<char>) -> bool {
    exists|i: int|
        0 <= i && i + part.len() <= s.len() && #[trigger] s.subrange(i, i + part.len()) == part
}

/// Lexicographic order by code point.
pub open spec fn at_most(a: Seq<char>, b: Seq<char>) -> bool
    decreases a.len(),
{
    if a.len() == 0 {
        true
    } else if b.len() == 0 {
        false
    } else {
        a[0] < b[0] || (a[0] == b[0] && at_most(a.drop_first(), b.drop_first()))
    }
}

/// The decimal digit for `d`.
pub open spec fn digit(d: nat) -> char {
    (('0' as u8) + d) as char
}

/// `n` in decimal.
pub open spec fn decimal(n: nat) -> Seq<char>
    decreases n,
{
    if n < 10 {
        seq![digit(n)]
    } else {
        decimal(n / 10).push(digit(n % 10))
    }
}

/// The texts that `v` holds.
pub open spec fn texts(v: Seq<String>) -> Seq<Seq<char>> {
    v.map_values(|s: String| s@)
}

/// The text that `t` holds.
pub open spec fn maybe_text(t: Option<String>) -> Option<Seq<char>> {
    match t {
        Some(s) => Some(s@),
        None => None,
    }
}

/// The first `c` is the one before which there is none.
pub proof fn position_is_first(s: Seq<char>, c: char, p: int)
    requires
        0 <= p <= s.len(),
        forall|j: int| 0 <= j < p ==> s[j] != c,
        p < s.len() ==> s[p] == c,
    ensures
        position(s, c) == p,
    decreases s.len(),
{
    if p > 0 {
        position_is_first(s.drop_first(), c, p - 1);
    }
}

pub(crate) proof fn lemma_kept_push(parts: Seq<Seq<char>>, part: Seq<char>)
    ensures
        kept(parts.push(part)) == if trimmed(part).len() > 0 {
            kept(parts).push(trimmed(part))
        } else {
            kept(parts)
        },
{
    reveal(Seq::filter);
    let trim = |part: Seq<char>| trimmed(part);
    assert(parts.push(part).map_values(trim).drop_last() == parts.map_values(trim));
}

/// Of two texts, one comes no later than the other.
pub proof fn order_is_total(a: Seq<char>, b: Seq<char>)
    ensures
        at_most(a, b) || at_most(b, a),
    decreases a.len(),
{
    if a.len() > 0 && b.len() > 0 && a[0] == b[0] {
        order_is_total(a.drop_first(), b.drop_first());
    }
}

/// Two texts of which neither comes later than the other are the same.
pub proof fn order_is_antisymmetric(a: Seq<char>, b: Seq<char>)
    requires
        at_most(a, b),
        at_most(b, a),
    ensures
        a == b,
    decreases a.len(),
{
    if a.len() > 0 && b.len() > 0 {
        order_is_antisymmetric(a.drop_first(), b.drop_first());
        assert(a == seq![a[0]] + a.drop_first());
        assert(b == seq![b[0]] + b.drop_first());
    } else {
        assert(a == b);
    }
}

/// Whether no white space stands at the ends of `s`.
pub open spec fn is_trim(s: Seq<char>) -> bool {
    s.len() > 0 ==> !is_space(s[0]) && !is_space(s.last())
}

proof fn lemma_trimmed_start(s: Seq<char>)
    ensures
        trimmed_start(s).len() > 0 ==> !is_space(trimmed_start(s)[0]),
    decreases s.len(),
{
    if s.len() > 0 && is_space(s[0]) {
        lemma_trimmed_start(s.drop_first());
    }
}

proof fn lemma_trimmed_end(s: Seq<char>)
    ensures
        trimmed_end(s).len() > 0 ==> !is_space(trimmed_end(s).last()) && trimmed_end(s)[0] == s[0],
        trimmed_end(s).len() <= s.len(),
    decreases s.len(),
{
    if s.len() > 0 && is_space(s.last()) {
        lemma_trimmed_end(s.drop_last());
    }
}

/// A trimmed text has no white space at its ends, and trimming leaves such a text as it is.
pub proof fn trimming_settles(s: Seq<char>)
    ensures
        is_trim(trimmed(s)),
        is_trim(s) ==> trimmed(s) == s,
        trimmed(trimmed(s)) == trimmed(s),
{
    lemma_trimmed_start(s);
    lemma_trimmed_end(trimmed_start(s));
}

/// What is kept of a list is trimmed and not blank.
pub proof fn kept_parts_are_clean(parts: Seq<Seq<char>>)
    ensures
        forall|i: int|
            0 <= i < kept(parts).len() ==> is_trim(#[trigger] kept(parts)[i]) && !is_blank(
                kept(parts)[i],
            ),
    decreases parts.len(),
{
    if parts.len() == 0 {
        reveal(Seq::filter);
        assert(kept(parts).len() == 0);
    } else {
        kept_parts_are_clean(parts.drop_last());
        lemma_kept_push(parts.drop_last(), parts.last());
        assert(parts.drop_last().push(parts.last()) == parts);
        trimming_settles(parts.last());
    }
}

/// A list of trimmed parts that are not blank is kept as it is.
pub proof fn clean_parts_are_kept(parts: Seq<Seq<char>>)
    requires
        forall|i: int|
            0 <= i < parts.len() ==> is_trim(#[trigger] parts[i]) && !is_blank(parts[i]),
    ensures
        kept(parts) == parts,
    decreases parts.len(),
{
    if parts.len() == 0 {
        reveal(Seq::filter);
        assert(kept(parts) == parts);
    } else {
        clean_parts_are_kept(parts.drop_last());
        lemma_kept_push(parts.drop_last(), parts.last());
        assert(parts.drop_last().push(parts.last()) == parts);
        trimming_settles(parts.last());
    }
}

/// `String::push` puts the character at the end.
pub assume_specification[ String::push ](s: &mut String, c: char)
    ensures
        final(s)@ == old(s)@.push(c),
;

fn space(c: char) -> (b: bool)
    ensures
        b == is_space(c),
{
    ('\u{9}' <= c && c <= '\u{d}') || c == ' ' || c == '\u{85}' || c == '\u{a0}' || c == '\u{1680}'
        || ('\u{2000}' <= c && c <= '\u{200a}') || c == '\u{2028}' || c == '\u{2029}' || c
        == '\u{202f}' || c == '\u{205f}' || c == '\u{3000}'
}

fn upper(c: char) -> (r: char)
    ensures
        r == upper_char(c),
{
    if 'a' <= c && c <= 'z' {
        (c as u8 - 32) as char
    } else {
        c
    }
}

fn lower(c: char) -> (r: char)
    ensures
        r == lower_char(c),
{
    if 'A' <= c && c <= 'Z' {
        (c as u8 + 32) as char
    } else {
        c
    }
}

/// The characters of `text`.
pub fn chars(text: &str) -> (out: Vec<char>)
    ensures
        out@ == text@,
{
    let mut out: Vec<char> = Vec::new();
    for c in it: text.chars()
        invariant
            it.seq() == text@,
            out@ == text@.take(it.index() as int),
    {
        out.push(c);
    }
    out
}

/// `text` without its leading white space.
pub fn trim_start(text: &str) -> (out: &str)
    ensures
        out@ == trimmed_start(text@),
{
    let chars: Vec<char> = chars(text);
    let mut start: usize = 0;
    assert(text@.skip(0) == text@);
    while start < chars.len() && space(chars[start])
        invariant
            start <= chars.len(),
            chars@ == text@,
            trimmed_start(text@.skip(start as int)) == trimmed_start(text@),
        decreases chars.len() - start,
    {
        assert(text@.skip(start as int).drop_first() == text@.skip(start + 1));
        start = start + 1;
    }
    assert(text@.subrange(start as int, chars@.len() as int) == text@.skip(start as int));
    text.substring_char(start, chars.len())
}

/// `text` without its trailing white space.
pub fn trim_end(text: &str) -> (out: &str)
    ensures
        out@ == trimmed_end(text@),
{
    let chars: Vec<char> = chars(text);
    let mut end: usize = chars.len();
    assert(text@.take(end as int) == text@);
    while end > 0 && space(chars[end - 1])
        invariant
            end <= chars.len(),
            chars@ == text@,
            trimmed_end(text@.take(end as int)) == trimmed_end(text@),
        decreases end,
    {
        assert(text@.take(end as int).drop_last() == text@.take(end - 1));
        end = end - 1;
    }
    assert(text@.subrange(0, end as int) == text@.take(end as int));
    text.substring_char(0, end)
}

/// `text` without the white space around it.
pub fn trim(text: &str) -> (out: &str)
    ensures
        out@ == trimmed(text@),
{
    trim_end(trim_start(text))
}

/// `text` with its ASCII letters in upper case.
pub fn to_uppercase(text: &str) -> (out: String)
    ensures
        out@ == uppercase(text@),
{
    let mut out: String = String::new();
    for c in it: text.chars()
        invariant
            it.seq() == text@,
            out@ == uppercase(text@.take(it.index() as int)),
    {
        out.push(upper(c));
    }
    out
}

/// `text` with its ASCII letters in lower case.
pub fn to_lowercase(text: &str) -> (out: String)
    ensures
        out@ == lowercase(text@),
{
    let mut out: String = String::new();
    for c in it: text.chars()
        invariant
            it.seq() == text@,
            out@ == lowercase(text@.take(it.index() as int)),
    {
        out.push(lower(c));
    }
    out
}

/// Whether `a` and `b` hold the same characters.
pub fn same(a: &str, b: &str) -> (r: bool)
    ensures
        r == (a@ == b@),
{
    a.to_owned().eq(&b.to_owned())
}

/// Whether `a` and `b` differ at most in the case of their ASCII letters.
pub fn same_ignoring_case(a: &str, b: &str) -> (r: bool)
    ensures
        r == alike(a@, b@),
{
    to_lowercase(a).eq(&to_lowercase(b))
}

/// Whether `text` holds nothing but white space.
pub fn blank(text: &str) -> (r: bool)
    ensures
        r == is_blank(text@),
{
    trim(text).is_empty()
}

fn find(chars: &Vec<char>, c: char, start: usize) -> (p: usize)
    requires
        start <= chars@.len(),
    ensures
        start <= p <= chars@.len(),
        p - start == position(chars@.skip(start as int), c),
{
    let mut p: usize = start;
    while p < chars.len() && chars[p] != c
        invariant
            start <= p <= chars@.len(),
            forall|j: int| start <= j < p ==> chars@[j] != c,
        decreases chars.len() - p,
    {
        p = p + 1;
    }
    proof {
        position_is_first(chars@.skip(start as int), c, p - start);
    }
    p
}

/// Whether `c` stands in `text`.
pub fn holds_char(text: &str, c: char) -> (r: bool)
    ensures
        r == text@.contains(c),
{
    let chars: Vec<char> = chars(text);
    let mut p: usize = 0;
    while p < chars.len()
        invariant
            p <= chars@.len(),
            chars@ == text@,
            forall|j: int| 0 <= j < p ==> chars@[j] != c,
        decreases chars.len() - p,
    {
        if chars[p] == c {
            return true;
        }
        p = p + 1;
    }
    false
}

/// What stands before and after the first `c` in `text`.
pub fn split_once(text: &str, c: char) -> (out: Option<(&str, &str)>)
    ensures
        match out {
            Some((a, b)) => cut(text@, c) == Some((a@, b@)),
            None => cut(text@, c) is None,
        },
{
    let chars: Vec<char> = chars(text);
    let p: usize = find(&chars, c, 0);
    assert(text@.skip(0) == text@);
    if p < chars.len() {
        let a = text.substring_char(0, p);
        let b = text.substring_char(p + 1, chars.len());
        assert(a@ == text@.take(p as int));
        assert(b@ == text@.skip(p + 1));
        Some((a, b))
    } else {
        None
    }
}

/// The parts of `text` between the separators `c`.
pub fn split(text: &str, c: char) -> (out: Vec<String>)
    ensures
        texts(out@) == pieces(text@, c),
{
    let chars: Vec<char> = chars(text);
    let mut out: Vec<String> = Vec::new();
    let mut start: usize = 0;
    assert(text@.skip(0) == text@);
    loop
        invariant
            start <= chars@.len(),
            chars@ == text@,
            texts(out@) + pieces(text@.skip(start as int), c) == pieces(text@, c),
        decreases chars@.len() - start,
    {
        let p: usize = find(&chars, c, start);
        let part = text.substring_char(start, p);
        let ghost rest = text@.skip(start as int);
        let ghost before = texts(out@);
        assert(part@ == rest.take(p - start));
        out.push(part.to_owned());
        assert(texts(out@) == before.push(part@));
        if p == chars.len() {
            assert(rest.take(p - start) == rest);
            assert(texts(out@) == before + seq![rest]);
            return out;
        }
        assert(rest.skip(p - start + 1) == text@.skip(p + 1));
        assert(texts(out@) + pieces(text@.skip(p + 1), c) == before + (seq![part@] + pieces(
            text@.skip(p + 1),
            c,
        )));
        start = p + 1;
    }
}

/// The parts that are not blank, trimmed.
pub fn keep(parts: &Vec<String>) -> (out: Vec<String>)
    ensures
        texts(out@) == kept(texts(parts@)),
{
    let mut out: Vec<String> = Vec::new();
    let mut i: usize = 0;
    proof {
        reveal(Seq::filter);
        assert(texts(out@) == kept(texts(parts@).take(0)));
    }
    while i < parts.len()
        invariant
            i <= parts@.len(),
            texts(out@) == kept(texts(parts@).take(i as int)),
        decreases parts.len() - i,
    {
        let part: &str = trim(parts[i].as_str());
        proof {
            lemma_kept_push(texts(parts@).take(i as int), parts@[i as int]@);
            assert(texts(parts@).take(i + 1) == texts(parts@).take(i as int).push(
                parts@[i as int]@,
            ));
        }
        if !part.is_empty() {
            let ghost before = texts(out@);
            out.push(part.to_owned());
            assert(texts(out@) == before.push(part@));
        }
        i = i + 1;
    }
    assert(texts(parts@).take(i as int) == texts(parts@));
    out
}

/// The parts of `text` between the separators `c`, trimmed, without the blank ones.
pub fn split_kept(text: &str, c: char) -> (out: Vec<String>)
    ensures
        texts(out@) == kept(pieces(text@, c)),
{
    keep(&split(text, c))
}

/// Whether `text` starts with `c`.
pub fn starts_with(text: &str, c: char) -> (out: bool)
    ensures
        out == (text@.len() > 0 && text@[0] == c),
{
    !text.is_empty() && text.get_char(0) == c
}

fn stands_at(chars: &Vec<char>, part: &Vec<char>, at: usize) -> (r: bool)
    requires
        at + part@.len() <= chars@.len(),
    ensures
        r == (chars@.subrange(at as int, at + part@.len()) == part@),
{
    let mut k: usize = 0;
    while k < part.len()
        invariant
            k <= part@.len(),
            at + part@.len() <= chars.len(),
            forall|j: int| 0 <= j < k ==> chars@[at + j] == part@[j],
        decreases part.len() - k,
    {
        if chars[at + k] != part[k] {
            assert(chars@.subrange(at as int, at + part@.len())[k as int] != part@[k as int]);
            return false;
        }
        k = k + 1;
    }
    assert(chars@.subrange(at as int, at + part@.len()) == part@);
    true
}

/// Whether `part` stands somewhere in `text`.
pub fn contains(text: &str, part: &str) -> (r: bool)
    ensures
        r == holds_part(text@, part@),
{
    let chars: Vec<char> = chars(text);
    let wanted: Vec<char> = self::chars(part);
    if wanted.len() > chars.len() {
        return false;
    }
    let last: usize = chars.len() - wanted.len();
    let mut at: usize = 0;
    while at <= last
        invariant
            at <= last + 1,
            last == chars@.len() - wanted@.len(),
            chars@ == text@,
            wanted@ == part@,
            forall|j: int|
                0 <= j < at ==> #[trigger] text@.subrange(j, j + part@.len()) != part@,
        decreases last + 1 - at,
    {
        if stands_at(&chars, &wanted, at) {
            return true;
        }
        if at == last {
            return false;
        }
        at = at + 1;
    }
    false
}

/// Whether `a` comes no later than `b` in the order of code points.
pub fn in_order(a: &str, b: &str) -> (r: bool)
    ensures
        r == at_most(a@, b@),
{
    let left: Vec<char> = chars(a);
    let right: Vec<char> = chars(b);
    let mut k: usize = 0;
    assert(a@.skip(0) == a@);
    assert(b@.skip(0) == b@);
    while k < left.len()
        invariant
            k <= left@.len(),
            k <= right@.len(),
            left@ == a@,
            right@ == b@,
            at_most(a@.skip(k as int), b@.skip(k as int)) == at_most(a@, b@),
        decreases left.len() - k,
    {
        if k == right.len() {
            return false;
        }
        if left[k] != right[k] {
            return left[k] < right[k];
        }
        assert(a@.skip(k as int).drop_first() == a@.skip(k + 1));
        assert(b@.skip(k as int).drop_first() == b@.skip(k + 1));
        k = k + 1;
    }
    true
}

/// `n` in decimal.
pub fn number(n: usize) -> (out: String)
    ensures
        out@ == decimal(n as nat),
    decreases n,
{
    let mut out: String = if n < 10 {
        String::new()
    } else {
        number(n / 10)
    };
    out.push((48 + (n % 10) as u8) as char);
    out
}

/// `a` followed by `b`.
pub fn join(a: &str, b: &str) -> (out: String)
    ensures
        out@ == a@ + b@,
{
    a.to_owned().concat(b)
}

/// `a`, `b` and `c` in a row.
pub fn join3(a: &str, b: &str, c: &str) -> (out: String)
    ensures
        out@ == a@ + b@ + c@,
{
    a.to_owned().concat(b).concat(c)
}

/// Whether `s` is made of white space alone.
pub open spec fn all_space(s: Seq<char>) -> bool {
    forall|i: int| 0 <= i < s.len() ==> is_space(#[trigger] s[i])
}

/// White space is tab to carriage return, space, and the wider and exotic spaces of Unicode.
pub proof fn white_space_is_that_of_unicode(c: char)
    ensures
        is_space(c) <==> {
            ||| 0x9 <= c as int <= 0xd
            ||| c as int == 0x20
            ||| c as int == 0x85
            ||| c as int == 0xa0
            ||| c as int == 0x1680
            ||| 0x2000 <= c as int <= 0x200a
            ||| 0x2028 <= c as int <= 0x2029
            ||| c as int == 0x202f
            ||| c as int == 0x205f
            ||| c as int == 0x3000
        },
{
}

pub(crate) proof fn lemma_start_of(before: Seq<char>, s: Seq<char>)
    requires
        all_space(before),
        s.len() > 0 ==> !is_space(s[0]),
    ensures
        trimmed_start(before + s) == s,
    decreases before.len(),
{
    let whole = before + s;
    if before.len() == 0 {
        assert(whole == s);
    } else {
        assert(is_space(before[0]));
        assert(whole[0] == before[0]);
        assert(whole.drop_first() == before.drop_first() + s);
        assert forall|i: int| 0 <= i < before.drop_first().len() implies is_space(
            #[trigger] before.drop_first()[i],
        ) by {
            assert(is_space(before[i + 1]));
        }
        lemma_start_of(before.drop_first(), s);
    }
}

proof fn lemma_end_of(s: Seq<char>, after: Seq<char>)
    requires
        all_space(after),
        s.len() > 0 ==> !is_space(s.last()),
    ensures
        trimmed_end(s + after) == s,
    decreases after.len(),
{
    let whole = s + after;
    if after.len() == 0 {
        assert(whole == s);
    } else {
        assert(is_space(after[after.len() - 1]));
        assert(whole.last() == after.last());
        assert(whole.drop_last() == s + after.drop_last());
        assert forall|i: int| 0 <= i < after.drop_last().len() implies is_space(
            #[trigger] after.drop_last()[i],
        ) by {
            assert(is_space(after[i]));
        }
        lemma_end_of(s, after.drop_last());
    }
}

/// White space around a text is taken off, and nothing else: what is left is the text between.
pub proof fn white_space_around_is_taken_off(before: Seq<char>, s: Seq<char>, after: Seq<char>)
    requires
        all_space(before),
        is_trim(s),
        all_space(after),
    ensures
        trimmed(before + s + after) == s,
        trimmed_start(before + s) == s,
        trimmed_end(s + after) == s,
        is_blank(before + s + after) == (s.len() == 0),
{
    lemma_start_of(before, s);
    lemma_end_of(s, after);
    if s.len() == 0 {
        let spaces = before + s + after;
        assert forall|i: int| 0 <= i < spaces.len() implies is_space(#[trigger] spaces[i]) by {
            if i < before.len() {
                assert(is_space(before[i]));
            } else {
                assert(is_space(after[i - before.len()]));
            }
        }
        assert(spaces + s == spaces);
        lemma_start_of(spaces, s);
    } else {
        assert((s + after)[0] == s[0]);
        assert(before + s + after == before + (s + after));
        lemma_start_of(before, s + after);
    }
}

/// A change of case keeps every character in its place, and changes ASCII letters alone.
pub proof fn case_changes_ascii_letters_alone(s: Seq<char>, i: int)
    requires
        0 <= i < s.len(),
    ensures
        uppercase(s).len() == s.len(),
        lowercase(s).len() == s.len(),
        uppercase(s)[i] as int == if 97 <= s[i] as int <= 122 {
            s[i] as int - 32
        } else {
            s[i] as int
        },
        lowercase(s)[i] as int == if 65 <= s[i] as int <= 90 {
            s[i] as int + 32
        } else {
            s[i] as int
        },
{
}

/// Whether two characters are the same, or one ASCII letter in different case.
pub open spec fn same_letter(x: char, y: char) -> bool {
    ||| x == y
    ||| 65 <= x as int <= 90 && y as int == x as int + 32
    ||| 97 <= x as int <= 122 && y as int == x as int - 32
}

/// Texts are alike where, and only where, they are equally long and have the same letter at every
/// place.
pub proof fn texts_are_alike_letter_by_letter(a: Seq<char>, b: Seq<char>)
    ensures
        alike(a, b) <==> {
            &&& a.len() == b.len()
            &&& forall|i: int| 0 <= i < a.len() ==> same_letter(#[trigger] a[i], b[i])
        },
{
    let (x, y) = (lowercase(a), lowercase(b));
    if alike(a, b) {
        assert(x.len() == a.len() && y.len() == b.len());
        assert forall|i: int| 0 <= i < a.len() implies same_letter(#[trigger] a[i], b[i]) by {
            assert(x[i] == y[i]);
        }
    }
    if a.len() == b.len() && forall|i: int|
        0 <= i < a.len() ==> same_letter(#[trigger] a[i], b[i]) {
        assert forall|i: int| 0 <= i < x.len() implies x[i] == y[i] by {
            assert(same_letter(a[i], b[i]));
        }
        assert(x == y);
    }
}

/// A text is cut at its first separator, and not at all where it has none.
pub proof fn text_is_cut_at_its_first_separator(before: Seq<char>, c: char, after: Seq<char>)
    requires
        !before.contains(c),
    ensures
        cut(before.push(c) + after, c) == Some((before, after)),
        cut(before, c) is None,
{
    let whole = before.push(c) + after;
    assert forall|j: int| 0 <= j < before.len() implies whole[j] != c by {
        assert(before.contains(before[j]));
        assert(whole[j] == before[j]);
    }
    assert forall|j: int| 0 <= j < before.len() implies before[j] != c by {
        assert(before.contains(before[j]));
    }
    position_is_first(whole, c, before.len() as int);
    position_is_first(before, c, before.len() as int);
    assert(whole.take(before.len() as int) == before);
    assert(whole.skip(before.len() as int + 1) == after);
}

/// A separator parts the pieces on one side of it from those on the other, and a text without one
/// is a single piece.
pub proof fn separator_parts_the_pieces(a: Seq<char>, c: char, b: Seq<char>)
    ensures
        pieces(a.push(c) + b, c) == pieces(a, c) + pieces(b, c),
        !a.contains(c) ==> pieces(a, c) == seq![a],
    decreases a.len(),
{
    let whole = a.push(c) + b;
    let p = position(a, c) as int;
    lemma_position(a, c);
    if p < a.len() {
        let rest = a.skip(p + 1);
        assert(a[p] == c);
        assert(a.contains(c));
        assert forall|j: int| 0 <= j < p implies whole[j] != c by {
            assert(whole[j] == a[j]);
        }
        position_is_first(whole, c, p);
        assert(whole.take(p) == a.take(p));
        assert(whole.skip(p + 1) == rest.push(c) + b);
        separator_parts_the_pieces(rest, c, b);
        assert(seq![a.take(p)] + (pieces(rest, c) + pieces(b, c)) == (seq![a.take(p)] + pieces(
            rest,
            c,
        )) + pieces(b, c));
    } else {
        assert forall|j: int| 0 <= j < a.len() implies whole[j] != c by {
            assert(whole[j] == a[j]);
        }
        position_is_first(whole, c, a.len() as int);
        assert(whole.take(a.len() as int) == a);
        assert(whole.skip(a.len() as int + 1) == b);
    }
}

proof fn lemma_position(s: Seq<char>, c: char)
    ensures
        position(s, c) <= s.len(),
        forall|j: int| 0 <= j < position(s, c) ==> s[j] != c,
        position(s, c) < s.len() ==> s[position(s, c) as int] == c,
    decreases s.len(),
{
    if s.len() > 0 && s[0] != c {
        lemma_position(s.drop_first(), c);
        assert forall|j: int| 0 <= j < position(s, c) implies s[j] != c by {
            if j > 0 {
                assert(s.drop_first()[j - 1] == s[j]);
            }
        }
    }
}

/// `parts` in a row, with `c` between them.
pub open spec fn joined(parts: Seq<Seq<char>>, c: char) -> Seq<char>
    decreases parts.len(),
{
    if parts.len() == 0 {
        Seq::empty()
    } else if parts.len() == 1 {
        parts[0]
    } else {
        parts[0].push(c) + joined(parts.drop_first(), c)
    }
}

/// Parts that are joined by a separator none of them holds are the pieces of the whole.
pub proof fn joined_parts_are_the_pieces(parts: Seq<Seq<char>>, c: char)
    requires
        parts.len() > 0,
        forall|i: int| 0 <= i < parts.len() ==> !(#[trigger] parts[i]).contains(c),
    ensures
        pieces(joined(parts, c), c) == parts,
    decreases parts.len(),
{
    assert(!parts[0].contains(c));
    if parts.len() == 1 {
        separator_parts_the_pieces(parts[0], c, Seq::empty());
        assert(parts == seq![parts[0]]);
    } else {
        let rest = parts.drop_first();
        assert forall|i: int| 0 <= i < rest.len() implies !(#[trigger] rest[i]).contains(c) by {
            assert(rest[i] == parts[i + 1]);
        }
        separator_parts_the_pieces(parts[0], c, joined(rest, c));
        joined_parts_are_the_pieces(rest, c);
        assert(seq![parts[0]] + rest == parts);
    }
}

/// The pieces of a text, joined by the separator, are the text, and none of them holds it.
pub proof fn pieces_make_up_the_text(s: Seq<char>, c: char)
    ensures
        pieces(s, c).len() > 0,
        joined(pieces(s, c), c) == s,
        forall|i: int| 0 <= i < pieces(s, c).len() ==> !(#[trigger] pieces(s, c)[i]).contains(c),
    decreases s.len(),
{
    let p = position(s, c) as int;
    lemma_position(s, c);
    if p < s.len() {
        let rest = s.skip(p + 1);
        pieces_make_up_the_text(rest, c);
        let parts = pieces(s, c);
        assert(parts.drop_first() == pieces(rest, c));
        assert(s.take(p).push(c) + rest == s);
        assert forall|i: int| 0 <= i < parts.len() implies !(#[trigger] parts[i]).contains(c) by {
            if i > 0 {
                assert(parts[i] == pieces(rest, c)[i - 1]);
            }
        }
    }
}

/// Of a list, the blank parts are dropped and the others are kept without the white space around
/// them, each in its place.
pub proof fn parts_are_kept_one_by_one(
    one: Seq<Seq<char>>,
    before: Seq<char>,
    s: Seq<char>,
    after: Seq<char>,
    other: Seq<Seq<char>>,
)
    requires
        all_space(before),
        is_trim(s),
        all_space(after),
    ensures
        kept(one + other) == kept(one) + kept(other),
        kept(seq![before + s + after]) == if s.len() > 0 {
            seq![s]
        } else {
            Seq::empty()
        },
{
    lemma_kept_sum(one, other);
    white_space_around_is_taken_off(before, s, after);
    let part = before + s + after;
    lemma_kept_push(Seq::empty(), part);
    lemma_kept_nothing();
    assert(Seq::<Seq<char>>::empty().push(part) == seq![part]);
    assert(Seq::<Seq<char>>::empty().push(s) == seq![s]);
}

proof fn lemma_kept_nothing()
    ensures
        kept(Seq::empty()) == Seq::<Seq<char>>::empty(),
{
    reveal(Seq::filter);
    assert(kept(Seq::empty()) =~= Seq::<Seq<char>>::empty());
}

proof fn lemma_kept_sum(one: Seq<Seq<char>>, other: Seq<Seq<char>>)
    ensures
        kept(one + other) == kept(one) + kept(other),
    decreases other.len(),
{
    if other.len() == 0 {
        lemma_kept_nothing();
        assert(other == Seq::<Seq<char>>::empty());
        assert(one + other == one);
        assert(kept(one) + kept(other) == kept(one));
    } else {
        let rest = other.drop_last();
        lemma_kept_sum(one, rest);
        lemma_kept_push(one + rest, other.last());
        lemma_kept_push(rest, other.last());
        assert((one + rest).push(other.last()) == one + other);
        assert(rest.push(other.last()) == other);
        assert(kept(one + other) =~= kept(one) + kept(other));
    }
}

/// A part is found wherever it stands, and what is found stands somewhere.
pub proof fn parts_are_found_anywhere(
    before: Seq<char>,
    part: Seq<char>,
    after: Seq<char>,
    s: Seq<char>,
)
    ensures
        holds_part(before + part + after, part),
        holds_part(s, part) ==> exists|a: Seq<char>, b: Seq<char>| s == #[trigger] (a + part + b),
{
    let whole = before + part + after;
    let i = before.len() as int;
    assert(whole.subrange(i, i + part.len()) == part);
    if holds_part(s, part) {
        let i = choose|i: int|
            0 <= i && i + part.len() <= s.len() && #[trigger] s.subrange(i, i + part.len()) == part;
        let a = s.take(i);
        let b = s.skip(i + part.len());
        assert(s == a + part + b);
    }
}

/// Two texts are ordered by the first character in which they differ, and a beginning comes
/// before what it begins.
pub proof fn first_difference_decides_the_order(
    start: Seq<char>,
    x: char,
    s: Seq<char>,
    y: char,
    t: Seq<char>,
)
    requires
        (x as int) < (y as int),
    ensures
        at_most(start.push(x) + s, start.push(y) + t),
        !at_most(start.push(y) + t, start.push(x) + s),
        at_most(start, start),
        at_most(start, start.push(x) + s),
        !at_most(start.push(x) + s, start),
    decreases start.len(),
{
    let (a, b) = (start.push(x) + s, start.push(y) + t);
    if start.len() > 0 {
        let rest = start.drop_first();
        first_difference_decides_the_order(rest, x, s, y, t);
        assert(a[0] == start[0] && b[0] == start[0]);
        assert(a.drop_first() == rest.push(x) + s);
        assert(b.drop_first() == rest.push(y) + t);
    }
}

/// The number that decimal digits write.
pub open spec fn number_of(digits: Seq<char>) -> int
    decreases digits.len(),
{
    if digits.len() == 0 {
        0
    } else {
        number_of(digits.drop_last()) * 10 + (digits.last() as int - 48)
    }
}

/// A number in decimal is made of digits, without a leading zero but for zero itself, and reads
/// as the number.
pub proof fn decimals_read_back(n: nat)
    ensures
        number_of(decimal(n)) == n,
        decimal(n).len() > 0,
        forall|i: int| 0 <= i < decimal(n).len() ==> 48 <= (#[trigger] decimal(n)[i]) as int <= 57,
        n > 0 ==> decimal(n)[0] as int != 48,
    decreases n,
{
    if n < 10 {
        let s = decimal(n);
        assert(s.drop_last() == Seq::<char>::empty());
        assert(number_of(s.drop_last()) == 0);
        assert(s[0] as int == 48 + n);
    } else {
        decimals_read_back(n / 10);
        let s = decimal(n);
        assert(s.drop_last() == decimal(n / 10));
        assert(s.last() as int == 48 + n % 10);
        assert(s[0] == decimal(n / 10)[0]);
    }
}

/// The texts of a list are those of its strings, one for one.
pub proof fn texts_are_those_of_the_strings(v: Seq<String>, t: Option<String>)
    ensures
        texts(v).len() == v.len(),
        forall|i: int| 0 <= i < v.len() ==> (#[trigger] texts(v)[i]) == v[i]@,
        maybe_text(t) is Some == t is Some,
        t matches Some(s) ==> maybe_text(t) == Some(s@),
{
}

} // verus!
