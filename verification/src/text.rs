//! Text as sequences of characters: what it means to trim, split, search and
//! join, and functions that do it.
use vstd::prelude::*;
use vstd::string::{StrSliceExecFns, StringExecFns};

verus! {

/// `String::push` appends one character.
pub assume_specification[ String::push ](s: &mut String, c: char)
    ensures
        final(s)@ == old(s)@.push(c),
;

/// The text of an optional string.
pub open spec fn viewed(text: Option<&str>) -> Option<Seq<char>> {
    match text {
        Some(text) => Some(text@),
        None => None,
    }
}

/// The text of an optional owned string.
pub open spec fn owned(text: Option<String>) -> Option<Seq<char>> {
    match text {
        Some(text) => Some(text@),
        None => None,
    }
}

/// The Unicode property White_Space.
pub open spec fn white_space(c: char) -> bool {
    let n = c as u32;
    ||| 0x9 <= n <= 0xd
    ||| n == 0x20
    ||| n == 0x85
    ||| n == 0xa0
    ||| n == 0x1680
    ||| 0x2000 <= n <= 0x200a
    ||| n == 0x2028
    ||| n == 0x2029
    ||| n == 0x202f
    ||| n == 0x205f
    ||| n == 0x3000
}

pub fn is_white_space(c: char) -> (r: bool)
    ensures
        r == white_space(c),
{
    let n: u32 = c as u32;
    (0x9 <= n && n <= 0xd) || n == 0x20 || n == 0x85 || n == 0xa0 || n == 0x1680 || (0x2000 <= n
        && n <= 0x200a) || n == 0x2028 || n == 0x2029 || n == 0x202f || n == 0x205f || n == 0x3000
}

/// The Unicode general category Cc.
pub open spec fn control(c: char) -> bool {
    let n = c as u32;
    n <= 0x1f || 0x7f <= n <= 0x9f
}

pub fn is_control(c: char) -> (r: bool)
    ensures
        r == control(c),
{
    let n: u32 = c as u32;
    n <= 0x1f || (0x7f <= n && n <= 0x9f)
}

pub open spec fn ascii_digit(c: char) -> bool {
    '0' <= c <= '9'
}

pub fn is_ascii_digit(c: char) -> (r: bool)
    ensures
        r == ascii_digit(c),
{
    '0' <= c && c <= '9'
}

pub open spec fn ascii_lowercase(c: char) -> bool {
    'a' <= c <= 'z'
}

pub fn is_ascii_lowercase(c: char) -> (r: bool)
    ensures
        r == ascii_lowercase(c),
{
    'a' <= c && c <= 'z'
}

/// `c` with an ASCII capital made small.
pub open spec fn lower(c: char) -> char {
    if 'A' <= c <= 'Z' {
        ((c as u32 + 32) as u8) as char
    } else {
        c
    }
}

/// `s` with its ASCII capitals made small.
pub open spec fn lowered(s: Seq<char>) -> Seq<char> {
    s.map_values(|c: char| lower(c))
}

/// The characters of `text`.
pub fn characters(text: &str) -> (r: Vec<char>)
    ensures
        r@ == text@,
{
    let mut out: Vec<char> = Vec::new();
    for c in it: text.chars()
        invariant
            it.seq() == text@,
            out@ == text@.take(it.index() as int),
    {
        out.push(c);
    }
    out
}

/// The text made of `chars`.
pub fn to_text(chars: &[char]) -> (r: String)
    ensures
        r@ == chars@,
{
    let mut out = String::new();
    for i in 0..chars.len()
        invariant
            out@ == chars@.take(i as int),
    {
        out.push(chars[i]);
    }
    out
}

/// Two texts are the same when they have the same characters.
pub fn same(a: &str, b: &str) -> (r: bool)
    ensures
        r == (a@ == b@),
{
    let x = a.as_bytes();
    let y = b.as_bytes();
    proof {
        vstd::utf8::encode_utf8_decode_utf8(a@);
        vstd::utf8::encode_utf8_decode_utf8(b@);
    }
    if x.len() != y.len() {
        return false;
    }
    for i in 0..x.len()
        invariant
            x@ == vstd::utf8::encode_utf8(a@),
            y@ == vstd::utf8::encode_utf8(b@),
            x.len() == y.len(),
            forall|j: int| 0 <= j < i ==> x@[j] == y@[j],
    {
        if x[i] != y[i] {
            return false;
        }
    }
    assert(x@ =~= y@);
    true
}

/// The text of an optional string, to read.
pub fn borrowed(text: &Option<String>) -> (r: Option<&str>)
    ensures
        viewed(r) == owned(*text),
{
    match text {
        Some(text) => Some(text.as_str()),
        None => None,
    }
}

/// A copy of an optional string.
pub fn copied(text: &Option<String>) -> (r: Option<String>)
    ensures
        owned(r) == owned(*text),
{
    match text {
        Some(text) => Some(text.clone()),
        None => None,
    }
}

/// Two optional texts are the same.
pub fn same_option(a: Option<&str>, b: Option<&str>) -> (r: bool)
    ensures
        r == (viewed(a) == viewed(b)),
{
    match (a, b) {
        (Some(a), Some(b)) => same(a, b),
        (None, None) => true,
        _ => false,
    }
}

/// `text` with its ASCII capitals made small.
pub fn to_lower(text: &str) -> (r: String)
    ensures
        r@ == lowered(text@),
{
    let mut out = String::new();
    for c in it: text.chars()
        invariant
            it.seq() == text@,
            out@ == lowered(text@.take(it.index() as int)),
    {
        let small = if 'A' <= c && c <= 'Z' {
            ((c as u8) + 32) as char
        } else {
            c
        };
        out.push(small);
        proof {
            assert(text@.take(it.index() + 1) =~= text@.take(it.index() as int).push(c));
        }
    }
    proof {
        assert(text@.take(text@.len() as int) =~= text@);
    }
    out
}

/// Being `c`.
pub open spec fn equals(c: char) -> spec_fn(char) -> bool {
    |d: char| d == c
}

/// Being white space.
pub open spec fn space() -> spec_fn(char) -> bool {
    |c: char| white_space(c)
}

/// The place of the first item for which `p` holds, the length where there is
/// none.
pub open spec fn first_where<A>(s: Seq<A>, p: spec_fn(A) -> bool) -> int
    decreases s.len(),
{
    if s.len() == 0 || p(s[0]) {
        0
    } else {
        1 + first_where(s.drop_first(), p)
    }
}

/// `s` without the white space it starts with.
pub open spec fn trimmed_start(s: Seq<char>) -> Seq<char>
    decreases s.len(),
{
    if s.len() > 0 && white_space(s[0]) {
        trimmed_start(s.drop_first())
    } else {
        s
    }
}

/// `s` without the white space it ends with.
pub open spec fn trimmed_end(s: Seq<char>) -> Seq<char>
    decreases s.len(),
{
    if s.len() > 0 && white_space(s.last()) {
        trimmed_end(s.drop_last())
    } else {
        s
    }
}

/// `s` without the white space around it.
pub open spec fn trimmed(s: Seq<char>) -> Seq<char> {
    trimmed_end(trimmed_start(s))
}

/// What is left after trimming is part of what was there, and starts and ends with
/// no white space.
pub proof fn lemma_trimmed(s: Seq<char>)
    ensures
        trimmed(s).len() <= s.len(),
        forall|i: int| 0 <= i < trimmed(s).len() ==> s.contains(#[trigger] trimmed(s)[i]),
        trimmed(s).len() > 0 ==> !white_space(trimmed(s)[0]) && !white_space(trimmed(s).last()),
{
    let start = trimmed_start(s);
    lemma_trimmed_start(s);
    lemma_trimmed_end(start);
    assert forall|i: int| 0 <= i < trimmed(s).len() implies s.contains(
        #[trigger] trimmed(s)[i],
    ) by {
        assert(trimmed_end(start)[i] == start[i]);
        assert(s.contains(start[i]));
    }
}

proof fn lemma_trimmed_start(s: Seq<char>)
    ensures
        trimmed_start(s).len() <= s.len(),
        forall|i: int|
            0 <= i < trimmed_start(s).len() ==> s.contains(#[trigger] trimmed_start(s)[i]),
        trimmed_start(s).len() > 0 ==> !white_space(trimmed_start(s)[0]),
    decreases s.len(),
{
    if s.len() > 0 && white_space(s[0]) {
        let rest = s.drop_first();
        lemma_trimmed_start(rest);
        assert forall|i: int| 0 <= i < trimmed_start(s).len() implies s.contains(
            #[trigger] trimmed_start(s)[i],
        ) by {
            assert(rest.contains(trimmed_start(rest)[i]));
            let j = choose|j: int| 0 <= j < rest.len() && rest[j] == trimmed_start(rest)[i];
            assert(s[j + 1] == rest[j]);
        }
    } else {
        assert forall|i: int| 0 <= i < trimmed_start(s).len() implies s.contains(
            #[trigger] trimmed_start(s)[i],
        ) by {
            assert(s[i] == trimmed_start(s)[i]);
        }
    }
}

proof fn lemma_trimmed_end(s: Seq<char>)
    ensures
        trimmed_end(s).len() <= s.len(),
        forall|i: int| 0 <= i < trimmed_end(s).len() ==> #[trigger] trimmed_end(s)[i] == s[i],
        trimmed_end(s).len() > 0 ==> !white_space(trimmed_end(s).last()),
    decreases s.len(),
{
    if s.len() > 0 && white_space(s.last()) {
        lemma_trimmed_end(s.drop_last());
    }
}

/// What is trimmed stays as it is when it is trimmed again.
pub proof fn lemma_trimmed_again(s: Seq<char>)
    ensures
        trimmed(trimmed(s)) == trimmed(s),
{
    lemma_trimmed(s);
    let t = trimmed(s);
    assert(trimmed_start(t) == t);
    assert(trimmed_end(t) == t);
}

/// `text` without the white space around it.
pub fn trim<'a>(text: &'a str) -> (r: &'a str)
    ensures
        r@ == trimmed(text@),
{
    let chars = characters(text);
    let mut start: usize = 0;
    proof {
        assert(text@.skip(0) =~= text@);
    }
    while start < chars.len() && is_white_space(chars[start])
        invariant
            chars@ == text@,
            start <= chars.len(),
            trimmed_start(text@.skip(start as int)) == trimmed_start(text@),
        decreases chars.len() - start,
    {
        proof {
            assert(text@.skip(start as int).drop_first() =~= text@.skip(start + 1));
        }
        start += 1;
    }
    let mut end: usize = chars.len();
    let ghost rest = text@.skip(start as int);
    proof {
        assert(trimmed_start(text@) == rest);
        assert(text@.subrange(start as int, end as int) =~= rest);
    }
    while end > start && is_white_space(chars[end - 1])
        invariant
            chars@ == text@,
            start <= end <= chars.len(),
            trimmed_end(text@.subrange(start as int, end as int)) == trimmed_end(rest),
        decreases end,
    {
        proof {
            assert(text@.subrange(start as int, end as int).drop_last() =~= text@.subrange(
                start as int,
                end - 1,
            ));
        }
        end -= 1;
    }
    text.substring_char(start, end)
}

/// Whether `text` starts with `prefix`.
pub fn starts_with(text: &str, prefix: &str) -> (r: bool)
    ensures
        r == prefix@.is_prefix_of(text@),
{
    let t = characters(text);
    let p = characters(prefix);
    if p.len() > t.len() {
        return false;
    }
    for i in 0..p.len()
        invariant
            t@ == text@,
            p@ == prefix@,
            p.len() <= t.len(),
            forall|j: int| 0 <= j < i ==> p@[j] == t@[j],
    {
        if p[i] != t[i] {
            proof {
                assert(text@.subrange(0, prefix@.len() as int)[i as int] == text@[i as int]);
            }
            return false;
        }
    }
    proof {
        assert(prefix@ =~= text@.subrange(0, prefix@.len() as int));
    }
    true
}

/// Whether `text` ends with `suffix`.
pub fn ends_with(text: &str, suffix: &str) -> (r: bool)
    ensures
        r == suffix@.is_suffix_of(text@),
{
    let t = characters(text);
    let p = characters(suffix);
    if p.len() > t.len() {
        return false;
    }
    let skip = t.len() - p.len();
    let ghost tail = text@.subrange(text@.len() - suffix@.len(), text@.len() as int);
    for i in 0..p.len()
        invariant
            t@ == text@,
            p@ == suffix@,
            skip + p.len() == t.len(),
            tail == text@.subrange(text@.len() - suffix@.len(), text@.len() as int),
            forall|j: int| 0 <= j < i ==> p@[j] == tail[j],
    {
        proof {
            assert(tail[i as int] == t@[skip + i]);
        }
        if p[i] != t[skip + i] {
            return false;
        }
    }
    proof {
        assert(suffix@ =~= tail);
    }
    true
}

/// What follows `prefix` in `s`, where `s` starts with it.
pub open spec fn after_prefix(s: Seq<char>, prefix: Seq<char>) -> Option<Seq<char>> {
    if prefix.is_prefix_of(s) {
        Some(s.skip(prefix.len() as int))
    } else {
        None
    }
}

/// What comes before `suffix` in `s`, where `s` ends with it.
pub open spec fn before_suffix(s: Seq<char>, suffix: Seq<char>) -> Option<Seq<char>> {
    if suffix.is_suffix_of(s) {
        Some(s.take(s.len() - suffix.len()))
    } else {
        None
    }
}

pub fn strip_prefix<'a>(text: &'a str, prefix: &str) -> (r: Option<&'a str>)
    ensures
        viewed(r) == after_prefix(text@, prefix@),
{
    if !starts_with(text, prefix) {
        return None;
    }
    let rest = text.substring_char(prefix.unicode_len(), text.unicode_len());
    proof {
        assert(rest@ =~= text@.skip(prefix@.len() as int));
    }
    Some(rest)
}

pub fn strip_suffix<'a>(text: &'a str, suffix: &str) -> (r: Option<&'a str>)
    ensures
        viewed(r) == before_suffix(text@, suffix@),
{
    if !ends_with(text, suffix) {
        return None;
    }
    let rest = text.substring_char(0, text.unicode_len() - suffix.unicode_len());
    proof {
        assert(rest@ =~= text@.take(text@.len() - suffix@.len()));
    }
    Some(rest)
}

/// Whether `part` stands somewhere in `s`.
pub open spec fn holds(s: Seq<char>, part: Seq<char>) -> bool {
    exists|i: int|
        0 <= i <= s.len() - part.len() && #[trigger] s.subrange(i, i + part.len()) == part
}

/// Whether `part` stands somewhere in `text`.
pub fn contains(text: &str, part: &str) -> (r: bool)
    ensures
        r == holds(text@, part@),
{
    let t = characters(text);
    let p = characters(part);
    if p.len() > t.len() {
        return false;
    }
    let last = t.len() - p.len();
    let mut i: usize = 0;
    while i <= last
        invariant
            t@ == text@,
            p@ == part@,
            last + p.len() == t.len(),
            i <= last + 1,
            forall|k: int| 0 <= k < i ==> #[trigger] text@.subrange(k, k + part@.len()) != part@,
        decreases last + 1 - i,
    {
        let mut j: usize = 0;
        while j < p.len() && t[i + j] == p[j]
            invariant
                t@ == text@,
                p@ == part@,
                last + p.len() == t.len(),
                i <= last,
                j <= p.len(),
                forall|k: int| 0 <= k < j ==> #[trigger] p@[k] == t@[i + k],
            decreases p.len() - j,
        {
            j += 1;
        }
        if j == p.len() {
            proof {
                assert(text@.subrange(i as int, i + part@.len()) =~= part@);
            }
            return true;
        }
        proof {
            assert(text@.subrange(i as int, i + part@.len())[j as int] != part@[j as int]);
        }
        if i == last {
            return false;
        }
        i += 1;
    }
    false
}

/// `s` cut at every `c`: the pieces between, one more than there are cuts.
pub open spec fn split_at(s: Seq<char>, c: char) -> Seq<Seq<char>>
    decreases s.len(),
{
    let i = first_where(s, equals(c));
    if 0 <= i < s.len() {
        seq![s.take(i)] + split_at(s.skip(i + 1), c)
    } else {
        seq![s]
    }
}

pub proof fn lemma_first_where<A>(s: Seq<A>, p: spec_fn(A) -> bool)
    ensures
        0 <= first_where(s, p) <= s.len(),
        forall|j: int| 0 <= j < first_where(s, p) ==> !p(#[trigger] s[j]),
        first_where(s, p) < s.len() ==> p(s[first_where(s, p)]),
    decreases s.len(),
{
    if s.len() > 0 && !p(s[0]) {
        lemma_first_where(s.drop_first(), p);
        assert forall|j: int| 0 <= j < first_where(s, p) implies !p(#[trigger] s[j]) by {
            if j > 0 {
                assert(s[j] == s.drop_first()[j - 1]);
            }
        }
    }
}

/// A place before which `p` never holds, and at which it holds or the items
/// end, is the first.
pub proof fn lemma_first_where_is<A>(s: Seq<A>, p: spec_fn(A) -> bool, i: int)
    requires
        0 <= i <= s.len(),
        forall|j: int| 0 <= j < i ==> !p(#[trigger] s[j]),
        i < s.len() ==> p(s[i]),
    ensures
        first_where(s, p) == i,
{
    lemma_first_where(s, p);
    let k = first_where(s, p);
    if k < i {
        assert(!p(s[k]));
    } else if i < k {
        assert(!p(s[i]));
    }
}

/// The place of the first `c`, the length where there is none.
pub fn find(chars: &[char], c: char) -> (r: usize)
    ensures
        r == first_where(chars@, equals(c)),
        r <= chars@.len(),
{
    let mut i: usize = 0;
    while i < chars.len() && chars[i] != c
        invariant
            i <= chars.len(),
            forall|j: int| 0 <= j < i ==> chars@[j] != c,
        decreases chars.len() - i,
    {
        i += 1;
    }
    proof {
        lemma_first_where_is(chars@, equals(c), i as int);
    }
    i
}

/// The texts of a list of strings.
pub open spec fn texts(list: Seq<String>) -> Seq<Seq<char>> {
    list.map_values(|text: String| text@)
}

/// `text` cut at every `c`.
pub fn split(text: &str, c: char) -> (r: Vec<String>)
    ensures
        texts(r@) == split_at(text@, c),
        r@.len() > 0,
{
    let chars = characters(text);
    let mut out: Vec<String> = Vec::new();
    let mut start: usize = 0;
    proof {
        assert(text@.skip(0) =~= text@);
    }
    loop
        invariant
            chars@ == text@,
            start <= chars.len(),
            texts(out@) + split_at(text@.skip(start as int), c) == split_at(text@, c),
        decreases chars.len() - start,
    {
        let rest = vstd::slice::slice_subrange(chars.as_slice(), start, chars.len());
        proof {
            assert(rest@ =~= text@.skip(start as int));
        }
        let i = find(rest, c);
        let piece = vstd::slice::slice_subrange(rest, 0, i);
        let ghost before = out@;
        out.push(to_text(piece));
        proof {
            assert(piece@ =~= rest@.take(i as int));
            assert(texts(out@) =~= texts(before).push(piece@));
        }
        if i == rest.len() {
            proof {
                assert(piece@ =~= rest@);
                assert(texts(out@) =~= texts(before) + seq![rest@]);
            }
            return out;
        }
        proof {
            assert(rest@.skip(i + 1) =~= text@.skip(start + i + 1));
            assert(texts(out@) + split_at(text@.skip(start + i + 1), c) =~= texts(before) + (
            seq![piece@] + split_at(text@.skip(start + i + 1), c)));
        }
        start = start + i + 1;
    }
}

/// `s` cut at its first `c`, where there is one.
pub open spec fn cut_once(s: Seq<char>, c: char) -> Option<(Seq<char>, Seq<char>)> {
    let i = first_where(s, equals(c));
    if i < s.len() {
        Some((s.take(i), s.skip(i + 1)))
    } else {
        None
    }
}

pub fn split_once<'a>(text: &'a str, c: char) -> (r: Option<(&'a str, &'a str)>)
    ensures
        match r {
            Some((before, after)) => cut_once(text@, c) == Some((before@, after@)),
            None => cut_once(text@, c) is None,
        },
{
    let chars = characters(text);
    let i = find(chars.as_slice(), c);
    if i == chars.len() {
        return None;
    }
    let before = text.substring_char(0, i);
    let after = text.substring_char(i + 1, chars.len());
    proof {
        assert(before@ =~= text@.take(i as int));
        assert(after@ =~= text@.skip(i + 1));
    }
    Some((before, after))
}

/// The words of `s`: what stands between its white space.
pub open spec fn words(s: Seq<char>) -> Seq<Seq<char>>
    decreases s.len(),
{
    if s.len() == 0 {
        Seq::empty()
    } else if white_space(s[0]) {
        words(s.drop_first())
    } else {
        let n = first_where(s, space());
        if 0 < n <= s.len() {
            seq![s.take(n)] + words(s.skip(n))
        } else {
            Seq::empty()
        }
    }
}

/// The words of `text`.
pub fn split_whitespace(text: &str) -> (r: Vec<String>)
    ensures
        texts(r@) == words(text@),
{
    let chars = characters(text);
    let mut out: Vec<String> = Vec::new();
    let mut start: usize = 0;
    proof {
        assert(text@.skip(0) =~= text@);
        assert(texts(out@) + words(text@) =~= words(text@));
    }
    while start < chars.len()
        invariant
            chars@ == text@,
            start <= chars.len(),
            texts(out@) + words(text@.skip(start as int)) == words(text@),
        decreases chars.len() - start,
    {
        let ghost rest = text@.skip(start as int);
        if is_white_space(chars[start]) {
            proof {
                assert(rest.drop_first() =~= text@.skip(start + 1));
            }
            start += 1;
        } else {
            let mut end: usize = start + 1;
            while end < chars.len() && !is_white_space(chars[end])
                invariant
                    chars@ == text@,
                    start < end <= chars.len(),
                    forall|j: int| start <= j < end ==> !white_space(#[trigger] chars@[j]),
                decreases chars.len() - end,
            {
                end += 1;
            }
            let word = vstd::slice::slice_subrange(chars.as_slice(), start, end);
            let ghost before = out@;
            out.push(to_text(word));
            proof {
                let n = end - start;
                assert forall|j: int| 0 <= j < n implies !white_space(#[trigger] rest[j]) by {
                    assert(rest[j] == chars@[start + j]);
                }
                lemma_first_where_is(rest, space(), n);
                assert(word@ =~= rest.take(n));
                assert(rest.skip(n) =~= text@.skip(end as int));
                assert(texts(out@) =~= texts(before).push(word@));
                assert(texts(out@) + words(text@.skip(end as int)) =~= texts(before) + (
                seq![word@] + words(text@.skip(end as int))));
            }
            start = end;
        }
    }
    proof {
        assert(texts(out@) + words(text@.skip(start as int)) =~= texts(out@));
    }
    out
}

/// `pieces` one after the other with `between` in between.
pub open spec fn joined(pieces: Seq<Seq<char>>, between: Seq<char>) -> Seq<char>
    decreases pieces.len(),
{
    if pieces.len() == 0 {
        Seq::empty()
    } else if pieces.len() == 1 {
        pieces[0]
    } else {
        joined(pieces.drop_last(), between) + between + pieces.last()
    }
}

/// Pieces one after the other start with the first, and then come the others.
pub proof fn lemma_joined_first(first: Seq<char>, rest: Seq<Seq<char>>, between: Seq<char>)
    requires
        rest.len() > 0,
    ensures
        joined(seq![first] + rest, between) == first + between + joined(rest, between),
    decreases rest.len(),
{
    let all = seq![first] + rest;
    if rest.len() == 1 {
        assert(all.drop_last() =~= seq![first]);
        assert(joined(all.drop_last(), between) == first);
    } else {
        assert(all.drop_last() =~= seq![first] + rest.drop_last());
        lemma_joined_first(first, rest.drop_last(), between);
        assert(joined(all, between) =~= first + between + (joined(rest.drop_last(), between)
            + between + rest.last()));
    }
}

/// Pieces one after the other are as long as each of them.
pub proof fn lemma_joined_length(pieces: Seq<Seq<char>>, between: Seq<char>, i: int)
    requires
        0 <= i < pieces.len(),
    ensures
        joined(pieces, between).len() >= pieces[i].len(),
        pieces.len() > 1 ==> joined(pieces, between).len() >= between.len(),
    decreases pieces.len(),
{
    if pieces.len() > 1 && i < pieces.len() - 1 {
        lemma_joined_length(pieces.drop_last(), between, i);
    }
}

/// `pieces` one after the other with `between` in between.
pub fn join(pieces: &Vec<String>, between: &str) -> (r: String)
    ensures
        r@ == joined(texts(pieces@), between@),
{
    let mut out = String::new();
    for i in 0..pieces.len()
        invariant
            out@ == joined(texts(pieces@).take(i as int), between@),
    {
        proof {
            assert(texts(pieces@).take(i + 1).drop_last() =~= texts(pieces@).take(i as int));
            assert(texts(pieces@).take(i + 1).last() == pieces@[i as int]@);
        }
        if i > 0 {
            out = out.concat(between);
        } else {
            proof {
                assert(Seq::<char>::empty() + pieces@[0]@ =~= pieces@[0]@);
            }
        }
        out = out.concat(pieces[i].as_str());
    }
    proof {
        assert(texts(pieces@).take(pieces@.len() as int) =~= texts(pieces@));
    }
    out
}

/// `s` with every `from` made `to`.
pub open spec fn swapped(s: Seq<char>, from: char, to: char) -> Seq<char> {
    s.map_values(
        |c: char|
            if c == from {
                to
            } else {
                c
            },
    )
}

pub fn swap(text: &str, from: char, to: char) -> (r: String)
    ensures
        r@ == swapped(text@, from, to),
{
    let mut out = String::new();
    for c in it: text.chars()
        invariant
            it.seq() == text@,
            out@ == swapped(text@.take(it.index() as int), from, to),
    {
        out.push(
            if c == from {
                to
            } else {
                c
            },
        );
        proof {
            assert(text@.take(it.index() + 1) =~= text@.take(it.index() as int).push(c));
        }
    }
    proof {
        assert(text@.take(text@.len() as int) =~= text@);
    }
    out
}

/// The first `n` characters of `s`, or all of them where there are fewer.
pub open spec fn first(s: Seq<char>, n: int) -> Seq<char> {
    if s.len() <= n {
        s
    } else {
        s.take(n)
    }
}

pub fn take(text: &str, n: usize) -> (r: String)
    ensures
        r@ == first(text@, n as int),
{
    let len = text.unicode_len();
    if len <= n {
        text.to_owned()
    } else {
        let start = text.substring_char(0, n);
        proof {
            assert(start@ =~= text@.take(n as int));
        }
        start.to_owned()
    }
}

pub open spec fn digit(n: int) -> char {
    ((48 + n) as u8) as char
}

/// `n` in decimal.
pub open spec fn digits(n: nat) -> Seq<char>
    decreases n,
{
    if n < 10 {
        seq![digit(n as int)]
    } else {
        digits(n / 10).push(digit((n % 10) as int))
    }
}

/// `n` in decimal, with a minus sign where it is negative.
pub open spec fn decimal(n: int) -> Seq<char> {
    if n < 0 {
        seq!['-'] + digits((-n) as nat)
    } else {
        digits(n as nat)
    }
}

pub fn unsigned_text(n: u64) -> (r: String)
    ensures
        r@ == digits(n as nat),
    decreases n,
{
    let last = ((48 + n % 10) as u8) as char;
    if n < 10 {
        let mut out = String::new();
        out.push(last);
        proof {
            assert(out@ =~= digits(n as nat));
        }
        out
    } else {
        let mut out = unsigned_text(n / 10);
        out.push(last);
        out
    }
}

pub fn integer_text(n: i64) -> (r: String)
    ensures
        r@ == decimal(n as int),
{
    if n < 0 {
        let size = (-(n as i128)) as u64;
        let mut out = String::new();
        out.push('-');
        proof {
            assert(out@ =~= seq!['-']);
        }
        out.concat(unsigned_text(size).as_str())
    } else {
        unsigned_text(n as u64)
    }
}

/// `s` without the characters of `set` that it starts with.
pub open spec fn stripped_start(s: Seq<char>, set: Seq<char>) -> Seq<char>
    decreases s.len(),
{
    if s.len() > 0 && set.contains(s[0]) {
        stripped_start(s.drop_first(), set)
    } else {
        s
    }
}

/// `s` without the characters of `set` that it ends with.
pub open spec fn stripped_end(s: Seq<char>, set: Seq<char>) -> Seq<char>
    decreases s.len(),
{
    if s.len() > 0 && set.contains(s.last()) {
        stripped_end(s.drop_last(), set)
    } else {
        s
    }
}

/// Whether `c` is one of `set`.
pub fn one_of(set: &[char], c: char) -> (r: bool)
    ensures
        r == set@.contains(c),
{
    for i in 0..set.len()
        invariant
            forall|j: int| 0 <= j < i ==> set@[j] != c,
    {
        if set[i] == c {
            return true;
        }
    }
    false
}

/// `text` without the characters of `set` that it starts with.
pub fn strip_start<'a>(text: &'a str, set: &[char]) -> (r: &'a str)
    ensures
        r@ == stripped_start(text@, set@),
{
    let chars = characters(text);
    let mut start: usize = 0;
    proof {
        assert(text@.skip(0) =~= text@);
    }
    while start < chars.len() && one_of(set, chars[start])
        invariant
            chars@ == text@,
            start <= chars.len(),
            stripped_start(text@.skip(start as int), set@) == stripped_start(text@, set@),
        decreases chars.len() - start,
    {
        proof {
            assert(text@.skip(start as int).drop_first() =~= text@.skip(start + 1));
        }
        start += 1;
    }
    let rest = text.substring_char(start, chars.len());
    proof {
        assert(rest@ =~= text@.skip(start as int));
    }
    rest
}

/// `text` without the characters of `set` that it ends with.
pub fn strip_end<'a>(text: &'a str, set: &[char]) -> (r: &'a str)
    ensures
        r@ == stripped_end(text@, set@),
{
    let chars = characters(text);
    let mut end: usize = chars.len();
    proof {
        assert(text@.take(end as int) =~= text@);
    }
    while end > 0 && one_of(set, chars[end - 1])
        invariant
            chars@ == text@,
            end <= chars.len(),
            stripped_end(text@.take(end as int), set@) == stripped_end(text@, set@),
        decreases end,
    {
        proof {
            assert(text@.take(end as int).drop_last() =~= text@.take(end - 1));
        }
        end -= 1;
    }
    let rest = text.substring_char(0, end);
    proof {
        assert(rest@ =~= text@.take(end as int));
    }
    rest
}

/// `s` cut at the first place where `part` stands, if there is one.
pub open spec fn cut_part(s: Seq<char>, part: Seq<char>) -> Option<(Seq<char>, Seq<char>)>
    decreases s.len(),
{
    if part.is_prefix_of(s) {
        Some((Seq::empty(), s.skip(part.len() as int)))
    } else if s.len() == 0 {
        None
    } else {
        match cut_part(s.drop_first(), part) {
            Some((before, after)) => Some((seq![s[0]] + before, after)),
            None => None,
        }
    }
}

proof fn lemma_cut_part(s: Seq<char>, part: Seq<char>, i: int)
    requires
        0 <= i <= s.len(),
        forall|j: int| 0 <= j < i ==> !part.is_prefix_of(#[trigger] s.skip(j)),
    ensures
        cut_part(s, part) == match cut_part(s.skip(i), part) {
            Some((before, after)) => Some((s.take(i) + before, after)),
            None => None,
        },
    decreases i,
{
    if i == 0 {
        assert(s.skip(0) =~= s);
        if let Some((before, after)) = cut_part(s, part) {
            assert(s.take(0) + before =~= before);
        }
    } else {
        assert(s.skip(0) =~= s);
        assert(!part.is_prefix_of(s.skip(0)));
        let rest = s.drop_first();
        assert forall|j: int| 0 <= j < i - 1 implies !part.is_prefix_of(#[trigger] rest.skip(j)) by {
            assert(rest.skip(j) =~= s.skip(j + 1));
        }
        lemma_cut_part(rest, part, i - 1);
        assert(rest.skip(i - 1) =~= s.skip(i));
        if let Some((before, after)) = cut_part(s.skip(i), part) {
            assert(seq![s[0]] + (rest.take(i - 1) + before) =~= s.take(i) + before);
        }
    }
}

/// `text` cut at the first place where `part` stands, if there is one.
pub fn split_part<'a>(text: &'a str, part: &str) -> (r: Option<(&'a str, &'a str)>)
    ensures
        match r {
            Some((before, after)) => cut_part(text@, part@) == Some((before@, after@)),
            None => cut_part(text@, part@) is None,
        },
{
    let len = text.unicode_len();
    let size = part.unicode_len();
    let mut i: usize = 0;
    loop
        invariant
            len == text@.len(),
            size == part@.len(),
            i <= len,
            forall|j: int| 0 <= j < i ==> !part@.is_prefix_of(#[trigger] text@.skip(j)),
        decreases len - i,
    {
        let rest = text.substring_char(i, len);
        proof {
            assert(rest@ =~= text@.skip(i as int));
            lemma_cut_part(text@, part@, i as int);
        }
        if starts_with(rest, part) {
            let before = text.substring_char(0, i);
            let after = text.substring_char(i + size, len);
            proof {
                assert(before@ =~= text@.take(i as int) + Seq::<char>::empty());
                assert(after@ =~= text@.skip(i as int).skip(size as int));
            }
            return Some((before, after));
        }
        if i == len {
            return None;
        }
        i += 1;
    }
}

/// `s` cut after its first `n` bytes, where they end with a character.
pub open spec fn cut_bytes(s: Seq<char>, n: int) -> Option<(Seq<char>, Seq<char>)> {
    let bytes = vstd::utf8::encode_utf8(s);
    if n <= bytes.len() && vstd::utf8::is_char_boundary(bytes, n) {
        Some(
            (
                vstd::utf8::decode_utf8(bytes.subrange(0, n)),
                vstd::utf8::decode_utf8(bytes.subrange(n, bytes.len() as int)),
            ),
        )
    } else {
        None
    }
}

/// `text` cut after its first `n` bytes, where they end with a character.
pub fn split_bytes<'a>(text: &'a str, n: usize) -> (r: Option<(&'a str, &'a str)>)
    ensures
        match r {
            Some((before, after)) => cut_bytes(text@, n as int) == Some((before@, after@)),
            None => cut_bytes(text@, n as int) is None,
        },
{
    if n <= text.as_bytes().len() && text.is_char_boundary(n) {
        let (before, after) = text.split_at(n);
        proof {
            vstd::utf8::encode_utf8_decode_utf8(before@);
            vstd::utf8::encode_utf8_decode_utf8(after@);
        }
        Some((before, after))
    } else {
        None
    }
}

proof fn lemma_encoded_parts(a: Seq<char>, b: Seq<char>)
    ensures
        vstd::utf8::encode_utf8(a + b) == vstd::utf8::encode_utf8(a) + vstd::utf8::encode_utf8(b),
        vstd::utf8::is_char_boundary(
            vstd::utf8::encode_utf8(a + b),
            vstd::utf8::encode_utf8(a).len() as int,
        ),
    decreases a.len(),
{
    let all = a + b;
    let bytes = vstd::utf8::encode_utf8(all);
    vstd::utf8::encode_utf8_valid_utf8(all);
    if a.len() == 0 {
        assert(all =~= b);
        assert(vstd::utf8::encode_utf8(a) + vstd::utf8::encode_utf8(b)
            =~= vstd::utf8::encode_utf8(b));
    } else {
        assert(all.drop_first() =~= a.drop_first() + b);
        lemma_encoded_parts(a.drop_first(), b);
        vstd::utf8::encode_utf8_first_scalar(all);
        let head = vstd::utf8::encode_scalar(a[0] as u32);
        let rest = vstd::utf8::encode_utf8(a.drop_first());
        assert(bytes =~= head + (rest + vstd::utf8::encode_utf8(b)));
        assert(vstd::utf8::encode_utf8(a) + vstd::utf8::encode_utf8(b) =~= bytes);
        assert(vstd::utf8::pop_first_scalar(bytes) =~= vstd::utf8::encode_utf8(all.drop_first()));
    }
}

/// A text of two parts is cut between them after the bytes of the first.
pub proof fn lemma_cut_bytes(a: Seq<char>, b: Seq<char>)
    ensures
        cut_bytes(a + b, byte_length(a)) == Some((a, b)),
{
    let first = vstd::utf8::encode_utf8(a);
    let second = vstd::utf8::encode_utf8(b);
    let all = vstd::utf8::encode_utf8(a + b);
    lemma_encoded_parts(a, b);
    assert(all.subrange(0, first.len() as int) =~= first);
    assert(all.subrange(first.len() as int, all.len() as int) =~= second);
    vstd::utf8::encode_utf8_decode_utf8(a);
    vstd::utf8::encode_utf8_decode_utf8(b);
}

/// Where a part starts with a character that is not in the text before it, the text
/// is cut at that part.
pub proof fn lemma_cut_at_part(before: Seq<char>, part: Seq<char>, after: Seq<char>)
    requires
        part.len() > 0,
        !before.contains(part[0]),
    ensures
        cut_part(before + part + after, part) == Some((before, after)),
{
    let s = before + part + after;
    let n = before.len() as int;
    assert forall|j: int| 0 <= j < n implies !part.is_prefix_of(#[trigger] s.skip(j)) by {
        assert(s[j] == before[j]);
        assert(before.contains(before[j]));
        assert(s.skip(j)[0] == s[j]);
        if part.is_prefix_of(s.skip(j)) {
            assert(part[0] == s.skip(j).subrange(0, part.len() as int)[0]);
        }
    }
    lemma_cut_part(s, part, n);
    assert(s.skip(n).subrange(0, part.len() as int) =~= part);
    assert(s.skip(n).skip(part.len() as int) =~= after);
    assert(s.take(n) + Seq::<char>::empty() =~= before);
}

/// Whether byte `n` of `s` is where a character starts, or the end.
pub open spec fn cuts_at(s: Seq<char>, n: int) -> bool {
    0 <= n <= vstd::utf8::encode_utf8(s).len() && vstd::utf8::is_char_boundary(
        vstd::utf8::encode_utf8(s),
        n,
    )
}

/// The part of `s` from byte `a` to before byte `b`.
pub open spec fn piece(s: Seq<char>, a: int, b: int) -> Seq<char> {
    vstd::utf8::decode_utf8(vstd::utf8::encode_utf8(s).subrange(a, b))
}

/// The length of `s` in bytes.
pub open spec fn byte_length(s: Seq<char>) -> int {
    vstd::utf8::encode_utf8(s).len() as int
}

proof fn lemma_boundary_within(bytes: Seq<u8>, a: int, b: int)
    requires
        vstd::utf8::valid_utf8(bytes),
        0 <= a <= b <= bytes.len(),
        vstd::utf8::is_char_boundary(bytes, a),
        vstd::utf8::is_char_boundary(bytes, b),
    ensures
        vstd::utf8::valid_utf8(bytes.subrange(0, b)),
        vstd::utf8::is_char_boundary(bytes.subrange(0, b), a),
{
    let start = bytes.subrange(0, b);
    vstd::utf8::valid_utf8_split(bytes, b);
    if a == b {
        vstd::utf8::is_char_boundary_start_end_of_seq(start);
    } else {
        vstd::utf8::is_char_boundary_iff_not_is_continuation_byte(bytes, a);
        vstd::utf8::is_char_boundary_iff_not_is_continuation_byte(start, a);
        assert(start[a] == bytes[a]);
    }
}

/// The part of `text` from byte `a` to before byte `b`.
pub fn slice<'a>(text: &'a str, a: usize, b: usize) -> (r: &'a str)
    requires
        a <= b,
        cuts_at(text@, a as int),
        cuts_at(text@, b as int),
    ensures
        r@ == piece(text@, a as int, b as int),
{
    let ghost bytes = vstd::utf8::encode_utf8(text@);
    proof {
        vstd::utf8::encode_utf8_valid_utf8(text@);
        lemma_boundary_within(bytes, a as int, b as int);
    }
    let (start, _) = text.split_at(b);
    let (_, part) = start.split_at(a);
    proof {
        vstd::utf8::encode_utf8_decode_utf8(part@);
        assert(bytes.subrange(0, b as int).subrange(a as int, b as int) =~= bytes.subrange(
            a as int,
            b as int,
        ));
    }
    part
}

/// The start of a text and its end are where characters start or end, and what is
/// between them is the text.
pub proof fn lemma_whole(s: Seq<char>)
    ensures
        cuts_at(s, 0),
        cuts_at(s, byte_length(s)),
        piece(s, 0, byte_length(s)) == s,
{
    let bytes = vstd::utf8::encode_utf8(s);
    vstd::utf8::encode_utf8_valid_utf8(s);
    vstd::utf8::is_char_boundary_start_end_of_seq(bytes);
    vstd::utf8::encode_utf8_decode_utf8(s);
    assert(bytes.subrange(0, bytes.len() as int) =~= bytes);
}

/// Where the character after byte `n` of `s` starts, or the end.
pub open spec fn next_cut(s: Seq<char>, n: int) -> int
    decreases byte_length(s) - n,
{
    if n + 1 >= byte_length(s) {
        byte_length(s)
    } else if cuts_at(s, n + 1) {
        n + 1
    } else {
        next_cut(s, n + 1)
    }
}

/// The next cut is behind `n`, and there is none between.
pub proof fn lemma_next_cut(s: Seq<char>, n: int)
    requires
        0 <= n < byte_length(s),
    ensures
        n < next_cut(s, n) <= byte_length(s),
        cuts_at(s, next_cut(s, n)),
        forall|m: int| n < m < next_cut(s, n) ==> !cuts_at(s, m),
    decreases byte_length(s) - n,
{
    lemma_whole(s);
    if n + 1 < byte_length(s) && !cuts_at(s, n + 1) {
        lemma_next_cut(s, n + 1);
    }
}

/// Where the character after byte `n` of `text` starts, or the end.
pub fn find_next_cut(text: &str, n: usize) -> (r: usize)
    requires
        n < byte_length(text@),
    ensures
        r == next_cut(text@, n as int),
        n < r <= byte_length(text@),
        cuts_at(text@, r as int),
{
    let length = text.as_bytes().len();
    proof {
        lemma_next_cut(text@, n as int);
    }
    let mut m: usize = n + 1;
    while m < length && !text.is_char_boundary(m)
        invariant
            length == byte_length(text@),
            n < m <= length,
            next_cut(text@, n as int) == next_cut(text@, m - 1),
        decreases length - m,
    {
        m += 1;
    }
    m
}

/// What `String::from_utf8_lossy` makes of bytes.
pub uninterp spec fn lossy_text(bytes: Seq<u8>) -> Seq<char>;

/// `String::from_utf8_lossy` decodes bytes that are UTF-8, and puts replacement
/// characters where they are not.
#[verifier::external_body]
pub(crate) fn lossy(bytes: &[u8]) -> (r: String)
    ensures
        r@ == lossy_text(bytes@),
        vstd::utf8::valid_utf8(bytes@) ==> r@ == vstd::utf8::decode_utf8(bytes@),
{
    String::from_utf8_lossy(bytes).into_owned()
}

/// The Unicode properties that `char::is_alphanumeric` reads.
pub uninterp spec fn alphanumeric(c: char) -> bool;

/// `char::is_alphanumeric` tells letters and numerals, which among the ASCII
/// characters are `0` to `9`, `A` to `Z` and `a` to `z`.
pub assume_specification[ char::is_alphanumeric ](c: char) -> (r: bool)
    ensures
        r == alphanumeric(c),
        (c as u32) < 128 ==> r == ('0' <= c <= '9' || 'A' <= c <= 'Z' || 'a' <= c <= 'z'),
;

/// The Unicode lower case of a text.
pub uninterp spec fn lowercase(s: Seq<char>) -> Seq<char>;

/// `str::to_lowercase` gives the Unicode lower case, which of an ASCII text
/// makes the ASCII capitals small.
pub assume_specification[ str::to_lowercase ](s: &str) -> (r: String)
    ensures
        r@ == lowercase(s@),
        vstd::utf8::is_ascii_chars(s@) ==> r@ == lowered(s@),
;

/// What is before a `c` that is the first one is the first piece, and what follows it is
/// cut on its own. Without any there is one piece.
pub proof fn lemma_split_first(a: Seq<char>, c: char, b: Seq<char>)
    requires
        !a.contains(c),
    ensures
        split_at(a, c) == seq![a],
        split_at(a + seq![c] + b, c) == seq![a] + split_at(b, c),
{
    let n = a.len() as int;
    let s = a + seq![c] + b;
    assert forall|j: int| 0 <= j < n implies !equals(c)(#[trigger] a[j]) by {
        assert(a.contains(a[j]));
    }
    assert forall|j: int| 0 <= j < n implies !equals(c)(#[trigger] s[j]) by {
        assert(a.contains(a[j]));
    }
    assert(s[n] == c);
    lemma_first_where_is(a, equals(c), n);
    lemma_first_where_is(s, equals(c), n);
    assert(s.take(n) =~= a);
    assert(s.skip(n + 1) =~= b);
}

/// The pieces between the `c` of a text hold no `c`, and with one in between each they
/// are the text.
pub proof fn pieces_make_up_the_text(s: Seq<char>, c: char)
    ensures
        split_at(s, c).len() > 0,
        joined(split_at(s, c), seq![c]) == s,
        forall|i: int| 0 <= i < split_at(s, c).len() ==> !(#[trigger] split_at(s, c)[i]).contains(c),
    decreases s.len(),
{
    let i = first_where(s, equals(c));
    lemma_first_where(s, equals(c));
    let pieces = split_at(s, c);
    if i < s.len() {
        let a = s.take(i);
        let b = s.skip(i + 1);
        let rest = split_at(b, c);
        pieces_make_up_the_text(b, c);
        lemma_joined_first(a, rest, seq![c]);
        assert(a + seq![c] + b =~= s);
        assert forall|k: int| 0 <= k < pieces.len() implies !(#[trigger] pieces[k]).contains(c) by {
            if k == 0 {
                if a.contains(c) {
                    let j = choose|j: int| 0 <= j < a.len() && a[j] == c;
                    assert(!equals(c)(s[j]));
                }
            } else {
                assert(pieces[k] == rest[k - 1]);
            }
        }
    } else {
        if s.contains(c) {
            let j = choose|j: int| 0 <= j < s.len() && s[j] == c;
            assert(!equals(c)(s[j]));
        }
    }
}

/// What is stripped from the start and the end is of the set, and what is left starts
/// and ends with none of it.
pub proof fn lemma_stripped(s: Seq<char>, set: Seq<char>) -> (ends: (Seq<char>, Seq<char>))
    ensures
        ({
            let inner = stripped_end(stripped_start(s, set), set);
            &&& s == ends.0 + inner + ends.1
            &&& forall|i: int| 0 <= i < ends.0.len() ==> set.contains(#[trigger] ends.0[i])
            &&& forall|i: int| 0 <= i < ends.1.len() ==> set.contains(#[trigger] ends.1[i])
            &&& inner.len() > 0 ==> !set.contains(inner[0]) && !set.contains(inner.last())
        }),
    decreases s.len(),
{
    if s.len() > 0 && set.contains(s[0]) {
        let rest = s.drop_first();
        let (lead, trail) = lemma_stripped(rest, set);
        let inner = stripped_end(stripped_start(rest, set), set);
        let more = seq![s[0]] + lead;
        assert(s =~= seq![s[0]] + rest);
        assert(seq![s[0]] + (lead + inner + trail) =~= more + inner + trail);
        assert forall|i: int| 0 <= i < more.len() implies set.contains(#[trigger] more[i]) by {
            if i > 0 {
                assert(more[i] == lead[i - 1]);
            }
        }
        (more, trail)
    } else if s.len() > 0 && set.contains(s.last()) {
        let rest = s.drop_last();
        assert(rest.len() > 0 ==> rest[0] == s[0]);
        let (lead, trail) = lemma_stripped(rest, set);
        let inner = stripped_end(stripped_start(rest, set), set);
        let more = trail.push(s.last());
        assert(stripped_start(rest, set) == rest);
        assert(stripped_start(s, set) == s);
        assert(s =~= rest.push(s.last()));
        assert((lead + inner + trail).push(s.last()) =~= lead + inner + more);
        assert forall|i: int| 0 <= i < more.len() implies set.contains(#[trigger] more[i]) by {
            if i < trail.len() {
                assert(more[i] == trail[i]);
            }
        }
        (lead, more)
    } else {
        assert(s =~= Seq::<char>::empty() + s + Seq::<char>::empty());
        (Seq::empty(), Seq::empty())
    }
}

/// What stands between characters of a set, and starts and ends with none of it, is what
/// is left when they are stripped.
pub proof fn lemma_stripped_is(
    lead: Seq<char>,
    inner: Seq<char>,
    trail: Seq<char>,
    set: Seq<char>,
)
    requires
        forall|i: int| 0 <= i < lead.len() ==> set.contains(#[trigger] lead[i]),
        forall|i: int| 0 <= i < trail.len() ==> set.contains(#[trigger] trail[i]),
        inner.len() > 0,
        !set.contains(inner[0]),
        !set.contains(inner.last()),
    ensures
        stripped_end(stripped_start(lead + inner + trail, set), set) == inner,
    decreases lead.len() + trail.len(),
{
    let s = lead + inner + trail;
    if lead.len() > 0 {
        let rest = lead.drop_first();
        assert(s[0] == lead[0]);
        assert(s.drop_first() =~= rest + inner + trail);
        assert forall|i: int| 0 <= i < rest.len() implies set.contains(#[trigger] rest[i]) by {
            assert(rest[i] == lead[i + 1]);
        }
        lemma_stripped_is(rest, inner, trail, set);
    } else {
        assert(s[0] == inner[0]);
        assert(stripped_start(s, set) == s);
        if trail.len() > 0 {
            let rest = trail.drop_last();
            assert(s.last() == trail.last());
            assert(s.drop_last() =~= lead + inner + rest);
            assert((lead + inner + rest)[0] == inner[0]);
            assert forall|i: int| 0 <= i < rest.len() implies set.contains(#[trigger] rest[i]) by {
                assert(rest[i] == trail[i]);
            }
            assert(stripped_start(lead + inner + rest, set) == lead + inner + rest);
            lemma_stripped_is(lead, inner, rest, set);
        } else {
            assert(s =~= inner);
        }
    }
}

/// A text is another in small letters where each of its characters is the same there, or
/// the ASCII capital of the one there, and the other has no capitals.
pub proof fn lemma_lowered_is(s: Seq<char>, small: Seq<char>)
    requires
        s.len() == small.len(),
        forall|i: int|
            0 <= i < s.len() ==> #[trigger] s[i] == small[i] || ('A' <= s[i] <= 'Z' && s[i] as int
                + 32 == small[i] as int),
        forall|i: int| 0 <= i < small.len() ==> !('A' <= #[trigger] small[i] <= 'Z'),
    ensures
        lowered(s) == small,
{
    assert forall|i: int| 0 <= i < s.len() implies lowered(s)[i] == small[i] by {
        assert(lowered(s)[i] == lower(s[i]));
        assert(!('A' <= small[i] <= 'Z'));
        if s[i] != small[i] {
            assert(lower(s[i]) as int == s[i] as int + 32);
        }
    }
    assert(lowered(s) =~= small);
}

/// Every character of a text in small letters is the one there, or its small letter
/// where it is an ASCII capital.
pub proof fn only_ascii_capitals_are_made_small(s: Seq<char>, i: int)
    requires
        0 <= i < s.len(),
    ensures
        lowered(s).len() == s.len(),
        'A' <= s[i] <= 'Z' ==> lowered(s)[i] as int == s[i] as int + 32,
        !('A' <= s[i] <= 'Z') ==> lowered(s)[i] == s[i],
{
    assert(lowered(s)[i] == lower(s[i]));
}

/// White space is the 25 characters of the Unicode property.
pub proof fn white_space_is_the_unicode_property(c: char)
    ensures
        white_space(c) <==> seq![
            0x9u32,
            0xa,
            0xb,
            0xc,
            0xd,
            0x20,
            0x85,
            0xa0,
            0x1680,
            0x2000,
            0x2001,
            0x2002,
            0x2003,
            0x2004,
            0x2005,
            0x2006,
            0x2007,
            0x2008,
            0x2009,
            0x200a,
            0x2028,
            0x2029,
            0x202f,
            0x205f,
            0x3000,
        ].contains(c as u32),
{
    let all = seq![
        0x9u32,
        0xa,
        0xb,
        0xc,
        0xd,
        0x20,
        0x85,
        0xa0,
        0x1680,
        0x2000,
        0x2001,
        0x2002,
        0x2003,
        0x2004,
        0x2005,
        0x2006,
        0x2007,
        0x2008,
        0x2009,
        0x200a,
        0x2028,
        0x2029,
        0x202f,
        0x205f,
        0x3000,
    ];
    let n = c as u32;
    if white_space(c) {
        let i: int = if n <= 0xd {
            n - 0x9
        } else if n == 0x20 {
            5
        } else if n == 0x85 {
            6
        } else if n == 0xa0 {
            7
        } else if n == 0x1680 {
            8
        } else if n <= 0x200a {
            9 + n - 0x2000
        } else if n == 0x2028 {
            20
        } else if n == 0x2029 {
            21
        } else if n == 0x202f {
            22
        } else if n == 0x205f {
            23
        } else {
            24
        };
        assert(all[i] == n);
    }
}

/// What is trimmed off is white space, and what is left starts and ends with none.
pub proof fn only_white_space_is_trimmed_off(s: Seq<char>) -> (ends: (Seq<char>, Seq<char>))
    ensures
        s == ends.0 + trimmed(s) + ends.1,
        forall|i: int| 0 <= i < ends.0.len() ==> white_space(#[trigger] ends.0[i]),
        forall|i: int| 0 <= i < ends.1.len() ==> white_space(#[trigger] ends.1[i]),
        trimmed(s).len() > 0 ==> !white_space(trimmed(s)[0]) && !white_space(trimmed(s).last()),
    decreases s.len(),
{
    lemma_trimmed(s);
    if s.len() > 0 && white_space(s[0]) {
        let rest = s.drop_first();
        let (lead, trail) = only_white_space_is_trimmed_off(rest);
        let more = seq![s[0]] + lead;
        assert(s =~= seq![s[0]] + rest);
        assert(seq![s[0]] + (lead + trimmed(rest) + trail) =~= more + trimmed(rest) + trail);
        assert forall|i: int| 0 <= i < more.len() implies white_space(#[trigger] more[i]) by {
            if i > 0 {
                assert(more[i] == lead[i - 1]);
            }
        }
        (more, trail)
    } else if s.len() > 0 && white_space(s.last()) {
        let rest = s.drop_last();
        assert(rest.len() > 0 ==> rest[0] == s[0]);
        let (lead, trail) = only_white_space_is_trimmed_off(rest);
        let more = trail.push(s.last());
        assert(trimmed_start(rest) == rest);
        assert(trimmed_start(s) == s);
        assert(s =~= rest.push(s.last()));
        assert((lead + trimmed(rest) + trail).push(s.last()) =~= lead + trimmed(rest) + more);
        assert forall|i: int| 0 <= i < more.len() implies white_space(#[trigger] more[i]) by {
            if i < trail.len() {
                assert(more[i] == trail[i]);
            }
        }
        (lead, more)
    } else {
        assert(s =~= Seq::<char>::empty() + s + Seq::<char>::empty());
        (Seq::empty(), Seq::empty())
    }
}

/// The words of a text stand between white space: the first is what comes up to the first
/// white space behind it, and the others are those of the rest. White space has none.
pub proof fn words_stand_between_white_space(
    lead: Seq<char>,
    word: Seq<char>,
    rest: Seq<char>,
)
    requires
        forall|i: int| 0 <= i < lead.len() ==> white_space(#[trigger] lead[i]),
        forall|i: int| 0 <= i < word.len() ==> !white_space(#[trigger] word[i]),
        word.len() > 0,
        rest.len() > 0 ==> white_space(rest[0]),
    ensures
        words(lead).len() == 0,
        words(lead + word + rest) == seq![word] + words(rest),
    decreases lead.len(),
{
    let s = lead + word + rest;
    if lead.len() > 0 {
        let less = lead.drop_first();
        assert(s[0] == lead[0]);
        assert(s.drop_first() =~= less + word + rest);
        assert forall|i: int| 0 <= i < less.len() implies white_space(#[trigger] less[i]) by {
            assert(less[i] == lead[i + 1]);
        }
        words_stand_between_white_space(less, word, rest);
    } else {
        let n = word.len() as int;
        assert(s[0] == word[0]);
        assert forall|j: int| 0 <= j < n implies !space()(#[trigger] s[j]) by {
            assert(s[j] == word[j]);
        }
        if rest.len() > 0 {
            assert(s[n] == rest[0]);
        }
        lemma_first_where_is(s, space(), n);
        assert(s.take(n) =~= word);
        assert(s.skip(n) =~= rest);
    }
}

/// A number in decimal is that of its tenth with one more digit behind it, and a negative
/// one has a minus sign before it.
pub proof fn a_number_is_written_digit_by_digit(n: nat, d: nat)
    requires
        d < 10,
    ensures
        digits(d) == seq![((48 + d) as u8) as char],
        n > 0 ==> digits(10 * n + d) == digits(n).push(((48 + d) as u8) as char),
        decimal(n as int) == digits(n),
        n > 0 ==> decimal(-(n as int)) == seq!['-'] + digits(n),
{
    if n > 0 {
        assert((10 * n + d) / 10 == n);
        assert((10 * n + d) % 10 == d);
    }
}

/// Where a text is cut at a part, what is before it and what is behind it are what the
/// text is made of, and the part does not stand any earlier; where it is not cut, the part
/// stands nowhere in it.
pub proof fn a_text_is_cut_at_the_first_place(s: Seq<char>, part: Seq<char>)
    ensures
        cut_part(s, part) matches Some((before, after)) ==> s == before + part + after && forall|
            k: int,
        |
            0 <= k < before.len() ==> !part.is_prefix_of(#[trigger] s.skip(k)),
        cut_part(s, part) is None ==> forall|k: int|
            0 <= k <= s.len() ==> !part.is_prefix_of(#[trigger] s.skip(k)),
    decreases s.len(),
{
    assert(s.skip(0) =~= s);
    if part.is_prefix_of(s) {
        assert(s =~= Seq::<char>::empty() + part + s.skip(part.len() as int));
    } else if s.len() > 0 {
        let rest = s.drop_first();
        a_text_is_cut_at_the_first_place(rest, part);
        assert forall|k: int| 1 <= k <= s.len() implies #[trigger] s.skip(k) == rest.skip(k - 1) by {
            assert(s.skip(k) =~= rest.skip(k - 1));
        }
        if let Some((before, after)) = cut_part(rest, part) {
            let more = seq![s[0]] + before;
            assert(s =~= seq![s[0]] + rest);
            assert(seq![s[0]] + (before + part + after) =~= more + part + after);
            assert forall|k: int| 0 <= k < more.len() implies !part.is_prefix_of(
                #[trigger] s.skip(k),
            ) by {
                if k > 0 {
                    assert(s.skip(k) == rest.skip(k - 1));
                }
            }
        } else {
            assert forall|k: int| 0 <= k <= s.len() implies !part.is_prefix_of(
                #[trigger] s.skip(k),
            ) by {
                if k > 0 {
                    assert(s.skip(k) == rest.skip(k - 1));
                }
            }
        }
    } else {
        assert forall|k: int| 0 <= k <= s.len() implies !part.is_prefix_of(#[trigger] s.skip(k)) by {
            assert(k == 0);
        }
    }
}

/// A text of three parts has them at their bytes.
pub proof fn lemma_pieces(a: Seq<char>, part: Seq<char>, b: Seq<char>)
    ensures
        byte_length(a + part) == byte_length(a) + byte_length(part),
        byte_length(a + part + b) == byte_length(a + part) + byte_length(b),
        part.len() > 0 <==> byte_length(part) > 0,
        cuts_at(a + part + b, byte_length(a)),
        cuts_at(a + part + b, byte_length(a + part)),
        piece(a + part + b, 0, byte_length(a)) == a,
        piece(a + part + b, byte_length(a), byte_length(a + part)) == part,
        piece(a + part + b, byte_length(a + part), byte_length(a + part + b)) == b,
{
    let s = a + part + b;
    assert(s =~= a + (part + b));
    lemma_encoded_parts(a, part);
    lemma_encoded_parts(a + part, b);
    lemma_encoded_parts(a, part + b);
    lemma_encoded_parts(part, b);
    lemma_cut_bytes(a, part + b);
    lemma_cut_bytes(a + part, b);
    let x = vstd::utf8::encode_utf8(a);
    let y = vstd::utf8::encode_utf8(part);
    let all = vstd::utf8::encode_utf8(s);
    assert(all.subrange(x.len() as int, (x + y).len() as int) =~= y);
    vstd::utf8::encode_utf8_decode_utf8(part);
    if part.len() > 0 {
        vstd::utf8::encode_utf8_first_scalar(part);
    }
}

/// The two parts of a text that is cut after some bytes are what it is made of, and the
/// first has that many bytes.
pub proof fn lemma_cut_parts(s: Seq<char>, n: int)
    requires
        0 <= n,
        cut_bytes(s, n) is Some,
    ensures
        ({
            let (before, after) = cut_bytes(s, n).unwrap();
            s == before + after && byte_length(before) == n && byte_length(after) == byte_length(s)
                - n
        }),
{
    let bytes = vstd::utf8::encode_utf8(s);
    let (before, after) = cut_bytes(s, n).unwrap();
    let a = bytes.subrange(0, n);
    let b = bytes.subrange(n, bytes.len() as int);
    vstd::utf8::encode_utf8_valid_utf8(s);
    vstd::utf8::valid_utf8_split(bytes, n);
    vstd::utf8::decode_utf8_encode_utf8(a);
    vstd::utf8::decode_utf8_encode_utf8(b);
    lemma_encoded_parts(before, after);
    assert(a + b =~= bytes);
    vstd::utf8::encode_utf8_decode_utf8(s);
    vstd::utf8::encode_utf8_decode_utf8(before + after);
}

} // verus!
