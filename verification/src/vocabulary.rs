//! Correcting the words that speech recognition reliably mishears.
//!
//! Each term lists the ways it comes out, and those are rewritten to the term. A
//! term also gets its own spelling. Whole words only are matched, in capitals or
//! small letters, and never inside a domain, a path or a hyphenated word; the
//! longest match wins, so a phrase beats a word inside it.
//!
//! A way of hearing a term belongs here only if it is not an ordinary word in its
//! own right: "pseudo" is how "sudo" is heard, but people say pseudo; "quick shell",
//! "fast fetch" and "flat pack" are ordinary phrases too. Those are left alone.
use vstd::prelude::*;
use vstd::string::{StrSliceExecFns, StringExecFns};

use crate::json::Json;
use crate::text;
use crate::vocabulary::defaults::{put_rows, LINUX, OMARCHY, TECH};

pub mod defaults;

verus! {

/// A term and the ways it is heard.
pub struct Entry {
    pub term: String,
    pub heard: Vec<String>,
}

/// What an [`Entry`] says.
#[verifier::ext_equal]
pub struct EntryView {
    pub term: Seq<char>,
    pub heard: Seq<Seq<char>>,
}

impl View for Entry {
    type V = EntryView;

    open spec fn view(&self) -> EntryView {
        EntryView { term: self.term@, heard: text::texts(self.heard@) }
    }
}

pub open spec fn entry_views(entries: Seq<Entry>) -> Seq<EntryView> {
    entries.map_values(|entry: Entry| entry@)
}

/// Having this term.
pub open spec fn has_term(term: Seq<char>) -> spec_fn(EntryView) -> bool {
    |entry: EntryView| entry.term == term
}

/// The place of a term in a vocabulary, the length where it has no such term.
pub open spec fn term_place(entries: Seq<EntryView>, term: Seq<char>) -> int {
    text::first_where(entries, has_term(term))
}

/// A vocabulary with an entry put in the place of the one with its term.
pub open spec fn with_entry(entries: Seq<EntryView>, entry: EntryView) -> Seq<EntryView> {
    let i = term_place(entries, entry.term);
    if i < entries.len() {
        entries.update(i, entry)
    } else {
        entries.push(entry)
    }
}

/// A vocabulary with further ways that a term is heard.
pub open spec fn with_more(entries: Seq<EntryView>, entry: EntryView) -> Seq<EntryView> {
    let i = term_place(entries, entry.term);
    if i < entries.len() {
        entries.update(
            i,
            EntryView { term: entry.term, heard: entries[i].heard + entry.heard },
        )
    } else {
        entries.push(entry)
    }
}

pub open spec fn with_all_more(entries: Seq<EntryView>, list: Seq<EntryView>) -> Seq<EntryView>
    decreases list.len(),
{
    if list.len() == 0 {
        entries
    } else {
        with_more(with_all_more(entries, list.drop_last()), list.last())
    }
}

/// The texts of `list` without the white space around them, but for those that
/// are nothing else.
pub open spec fn spoken(list: Seq<Seq<char>>) -> Seq<Seq<char>>
    decreases list.len(),
{
    if list.len() == 0 {
        Seq::empty()
    } else if text::trimmed(list.last()).len() == 0 {
        spoken(list.drop_last())
    } else {
        spoken(list.drop_last()).push(text::trimmed(list.last()))
    }
}

fn clean_texts(list: &Vec<String>) -> (r: Vec<String>)
    ensures
        text::texts(r@) == spoken(text::texts(list@)),
{
    let ghost all = text::texts(list@);
    let mut out: Vec<String> = Vec::new();
    for i in 0..list.len()
        invariant
            all == text::texts(list@),
            text::texts(out@) == spoken(all.take(i as int)),
    {
        proof {
            assert(all.take(i + 1).drop_last() =~= all.take(i as int));
            assert(all.take(i + 1).last() == list@[i as int]@);
        }
        let trimmed = text::trim(list[i].as_str());
        if !trimmed.is_empty() {
            let ghost before = out@;
            out.push(trimmed.to_owned());
            proof {
                assert(text::texts(out@) =~= text::texts(before).push(trimmed@));
            }
        }
    }
    proof {
        assert(all.take(list@.len() as int) =~= all);
    }
    out
}

fn find_term(entries: &Vec<Entry>, term: &str) -> (r: usize)
    ensures
        r == term_place(entry_views(entries@), term@),
        r <= entries@.len(),
{
    let ghost views = entry_views(entries@);
    let mut i: usize = 0;
    while i < entries.len() && !text::same(entries[i].term.as_str(), term)
        invariant
            views == entry_views(entries@),
            i <= entries.len(),
            forall|j: int| 0 <= j < i ==> (#[trigger] views[j]).term != term@,
        decreases entries.len() - i,
    {
        i += 1;
    }
    proof {
        text::lemma_first_where_is(views, has_term(term@), i as int);
    }
    i
}

fn put_entry(entries: &mut Vec<Entry>, entry: Entry)
    ensures
        entry_views(final(entries)@) == with_entry(entry_views(old(entries)@), entry@),
{
    let ghost before = entries@;
    let i = find_term(entries, entry.term.as_str());
    let count = entries.len();
    if i < count {
        entries.set(i, entry);
        proof {
            assert(entry_views(entries@) =~= entry_views(before).update(i as int, entry@));
        }
    } else {
        entries.push(entry);
        proof {
            assert(entry_views(entries@) =~= entry_views(before).push(entry@));
        }
    }
}

fn append_texts(out: &mut Vec<String>, list: &Vec<String>)
    ensures
        text::texts(final(out)@) == text::texts(old(out)@) + text::texts(list@),
{
    let ghost before = out@;
    for i in 0..list.len()
        invariant
            text::texts(out@) == text::texts(before) + text::texts(list@).take(i as int),
    {
        let ghost now = out@;
        out.push(list[i].clone());
        proof {
            assert(text::texts(out@) =~= text::texts(now).push(list@[i as int]@));
            assert(text::texts(list@).take(i + 1) =~= text::texts(list@).take(i as int).push(
                list@[i as int]@,
            ));
        }
    }
    proof {
        assert(text::texts(list@).take(list@.len() as int) =~= text::texts(list@));
        assert(text::texts(before) + text::texts(list@).take(0) =~= text::texts(before));
    }
}

pub(crate) fn put_more(entries: &mut Vec<Entry>, entry: Entry)
    ensures
        entry_views(final(entries)@) == with_more(entry_views(old(entries)@), entry@),
{
    let ghost before = entries@;
    let i = find_term(entries, entry.term.as_str());
    let count = entries.len();
    if i < count {
        let mut heard: Vec<String> = Vec::new();
        append_texts(&mut heard, &entries[i].heard);
        append_texts(&mut heard, &entry.heard);
        let grown = Entry { term: entry.term, heard };
        entries.set(i, grown);
        proof {
            assert(grown@ =~= (EntryView {
                term: entry.term@,
                heard: entry_views(before)[i as int].heard + entry@.heard,
            }));
            assert(entry_views(entries@) =~= entry_views(before).update(i as int, grown@));
        }
    } else {
        entries.push(entry);
        proof {
            assert(entry_views(entries@) =~= entry_views(before).push(entry@));
        }
    }
}

/// The default terms: those of technology, then of Linux, then of Omarchy.
pub open spec fn default_entries() -> Seq<EntryView> {
    with_all_more(
        with_all_more(
            with_all_more(Seq::empty(), defaults::row_entries(TECH@)),
            defaults::row_entries(LINUX@),
        ),
        defaults::row_entries(OMARCHY@),
    )
}

/// The default terms.
pub fn default_vocabulary() -> (r: Vec<Entry>)
    ensures
        entry_views(r@) == default_entries(),
{
    let mut entries: Vec<Entry> = Vec::new();
    proof {
        assert(entry_views(entries@) =~= Seq::<EntryView>::empty());
    }
    put_rows(&mut entries, &TECH);
    put_rows(&mut entries, &LINUX);
    put_rows(&mut entries, &OMARCHY);
    entries
}

/// The strings among the items of a list.
pub open spec fn string_items(items: Seq<Json>) -> Seq<Seq<char>>
    decreases items.len(),
{
    if items.len() == 0 {
        Seq::empty()
    } else {
        match items.last() {
            Json::Text(text) => string_items(items.drop_last()).push(text@),
            _ => string_items(items.drop_last()),
        }
    }
}

/// The well-formed entries among the members of an object: a term that is not
/// only white space, with a list of ways it is heard. Of the items of the list
/// only the strings count.
pub open spec fn clean_members(members: Seq<(String, Json)>) -> Seq<EntryView>
    decreases members.len(),
{
    if members.len() == 0 {
        Seq::empty()
    } else {
        let before = clean_members(members.drop_last());
        let term = text::trimmed(members.last().0@);
        match members.last().1 {
            Json::Array(items) => if term.len() == 0 {
                before
            } else {
                with_entry(before, EntryView { term, heard: spoken(string_items(items@)) })
            },
            _ => before,
        }
    }
}

/// The well-formed entries of a vocabulary in a settings file.
pub open spec fn clean_entries(vocabulary: Json) -> Seq<EntryView> {
    match vocabulary {
        Json::Object(members) => clean_members(members@),
        _ => Seq::empty(),
    }
}

fn find_strings(items: &Vec<Json>) -> (r: Vec<String>)
    ensures
        text::texts(r@) == string_items(items@),
{
    let mut out: Vec<String> = Vec::new();
    for i in 0..items.len()
        invariant
            text::texts(out@) == string_items(items@.take(i as int)),
    {
        proof {
            assert(items@.take(i + 1).drop_last() =~= items@.take(i as int));
            assert(items@.take(i + 1).last() == items@[i as int]);
        }
        if let Json::Text(text) = &items[i] {
            let ghost before = out@;
            out.push(text.clone());
            proof {
                assert(text::texts(out@) =~= text::texts(before).push(text@));
            }
        }
    }
    proof {
        assert(items@.take(items@.len() as int) =~= items@);
    }
    out
}

/// The well-formed entries of a vocabulary in a settings file. Anything else in it
/// is left out rather than rejecting the whole of it. Of terms that are the same
/// without the white space around them, the last counts.
pub fn clean(vocabulary: &Json) -> (r: Vec<Entry>)
    ensures
        entry_views(r@) == clean_entries(*vocabulary),
{
    let mut entries: Vec<Entry> = Vec::new();
    proof {
        assert(entry_views(entries@) =~= Seq::<EntryView>::empty());
    }
    if let Json::Object(members) = vocabulary {
        for i in 0..members.len()
            invariant
                entry_views(entries@) == clean_members(members@.take(i as int)),
        {
            proof {
                assert(members@.take(i + 1).drop_last() =~= members@.take(i as int));
                assert(members@.take(i + 1).last() == members@[i as int]);
            }
            let term = text::trim(members[i].0.as_str());
            if let Json::Array(items) = &members[i].1 {
                if !term.is_empty() {
                    let strings = find_strings(items);
                    let entry = Entry { term: term.to_owned(), heard: clean_texts(&strings) };
                    put_entry(&mut entries, entry);
                }
            }
        }
        proof {
            assert(members@.take(members@.len() as int) =~= members@);
        }
    }
    entries
}

/// The terms that a user's vocabulary makes with the default ones: a term of both
/// is heard in the ways of both.
pub open spec fn merged_entries(vocabulary: Json) -> Seq<EntryView> {
    with_all_more(default_entries(), clean_entries(vocabulary))
}

/// The default terms and those of a user's vocabulary.
pub fn merge(vocabulary: &Json) -> (r: Vec<Entry>)
    ensures
        entry_views(r@) == merged_entries(*vocabulary),
{
    let mut entries = default_vocabulary();
    let list = clean(vocabulary);
    let ghost views = entry_views(list@);
    for entry in it: list
        invariant
            views == entry_views(it.seq()),
            entry_views(entries@) == with_all_more(
                default_entries(),
                views.take(it.index() as int),
            ),
    {
        proof {
            assert(views.take(it.index() + 1).drop_last() =~= views.take(it.index() as int));
            assert(views.take(it.index() + 1).last() == entry@);
        }
        put_more(&mut entries, entry);
    }
    proof {
        assert(views.take(views.len() as int) =~= views);
    }
    entries
}

/// A way that a term is heard, in small letters and with single spaces, and the
/// term that it is rewritten to.
pub struct Replacement {
    pub heard: String,
    pub term: String,
}

/// What a [`Replacement`] says.
pub struct ReplacementView {
    pub heard: Seq<char>,
    pub term: Seq<char>,
}

impl View for Replacement {
    type V = ReplacementView;

    open spec fn view(&self) -> ReplacementView {
        ReplacementView { heard: self.heard@, term: self.term@ }
    }
}

pub open spec fn replacement_views(list: Seq<Replacement>) -> Seq<ReplacementView> {
    list.map_values(|replacement: Replacement| replacement@)
}

/// The words of a text with single spaces between.
pub open spec fn spaced(s: Seq<char>) -> Seq<char> {
    text::joined(text::words(s), " "@)
}

/// The words of `text` with single spaces between.
pub fn normalize_whitespace(text: &str) -> (r: String)
    ensures
        r@ == spaced(text@),
{
    let words = text::split_whitespace(text);
    text::join(&words, " ")
}

/// What a way that a term is heard is found by.
pub open spec fn heard_key(variant: Seq<char>) -> Seq<char> {
    text::lowercase(spaced(text::trimmed(variant)))
}

/// Being heard so.
pub open spec fn is_heard(key: Seq<char>) -> spec_fn(ReplacementView) -> bool {
    |replacement: ReplacementView| replacement.heard == key
}

/// The place of a key, the length where there is none.
pub open spec fn key_place(list: Seq<ReplacementView>, key: Seq<char>) -> int {
    text::first_where(list, is_heard(key))
}

/// The term that a key is rewritten to, if there is one.
pub open spec fn term_of(list: Seq<ReplacementView>, key: Seq<char>) -> Option<Seq<char>> {
    let i = key_place(list, key);
    if i < list.len() {
        Some(list[i].term)
    } else {
        None
    }
}

/// The replacements with `key` rewritten to `term`.
pub open spec fn with_key(
    list: Seq<ReplacementView>,
    key: Seq<char>,
    term: Seq<char>,
) -> Seq<ReplacementView> {
    let i = key_place(list, key);
    let replacement = ReplacementView { heard: key, term };
    if key.len() == 0 {
        list
    } else if i < list.len() {
        list.update(i, replacement)
    } else {
        list.push(replacement)
    }
}

/// The replacements with all of `variants` rewritten to `term`.
pub open spec fn with_variants(
    list: Seq<ReplacementView>,
    term: Seq<char>,
    variants: Seq<Seq<char>>,
) -> Seq<ReplacementView>
    decreases variants.len(),
{
    if variants.len() == 0 {
        list
    } else {
        with_key(
            with_variants(list, term, variants.drop_last()),
            heard_key(variants.last()),
            term,
        )
    }
}

/// The replacements of a vocabulary: every way that a term is heard, and the term
/// itself, is rewritten to the term. Where two terms are heard the same, the later
/// one counts.
pub open spec fn entry_replacements(entries: Seq<EntryView>) -> Seq<ReplacementView>
    decreases entries.len(),
{
    if entries.len() == 0 {
        Seq::empty()
    } else {
        let entry = entries.last();
        with_variants(
            entry_replacements(entries.drop_last()),
            entry.term,
            seq![entry.term] + entry.heard,
        )
    }
}

fn find_key(list: &Vec<Replacement>, key: &str) -> (r: usize)
    ensures
        r == key_place(replacement_views(list@), key@),
        r <= list@.len(),
{
    let ghost views = replacement_views(list@);
    let mut i: usize = 0;
    while i < list.len() && !text::same(list[i].heard.as_str(), key)
        invariant
            views == replacement_views(list@),
            i <= list.len(),
            forall|j: int| 0 <= j < i ==> (#[trigger] views[j]).heard != key@,
        decreases list.len() - i,
    {
        i += 1;
    }
    proof {
        text::lemma_first_where_is(views, is_heard(key@), i as int);
    }
    i
}

fn put_key(list: &mut Vec<Replacement>, variant: &str, term: &str)
    ensures
        replacement_views(final(list)@) == with_key(
            replacement_views(old(list)@),
            heard_key(variant@),
            term@,
        ),
        vstd::utf8::is_ascii_chars(spaced(text::trimmed(variant@))) ==> heard_key(variant@)
            == defaults::small_key(variant@),
{
    let ghost before = replacement_views(list@);
    let spaced = normalize_whitespace(text::trim(variant));
    let key = spaced.as_str().to_lowercase();
    if key.as_str().is_empty() {
        return;
    }
    let i = find_key(list, key.as_str());
    let count = list.len();
    let replacement = Replacement { heard: key, term: term.to_owned() };
    if i < count {
        list.set(i, replacement);
        proof {
            assert(replacement_views(list@) =~= before.update(i as int, replacement@));
        }
    } else {
        list.push(replacement);
        proof {
            assert(replacement_views(list@) =~= before.push(replacement@));
        }
    }
}

/// The replacements of a vocabulary.
pub fn find_replacements(entries: &Vec<Entry>) -> (r: Vec<Replacement>)
    ensures
        replacement_views(r@) == entry_replacements(entry_views(entries@)),
        defaults::keys_are_small(entry_views(entries@)),
{
    let ghost views = entry_views(entries@);
    let mut list: Vec<Replacement> = Vec::new();
    proof {
        assert(replacement_views(list@) =~= Seq::<ReplacementView>::empty());
    }
    for i in 0..entries.len()
        invariant
            views == entry_views(entries@),
            replacement_views(list@) == entry_replacements(views.take(i as int)),
            defaults::keys_are_small(views.take(i as int)),
    {
        let entry = &entries[i];
        let term = entry.term.as_str();
        let ghost variants = seq![entry.term@] + text::texts(entry.heard@);
        let ghost before = replacement_views(list@);
        proof {
            assert(views.take(i + 1).drop_last() =~= views.take(i as int));
            assert(views.take(i + 1).last() == entry@);
            assert(variants.take(1).drop_last() =~= Seq::<Seq<char>>::empty());
            assert(variants.take(1).last() == entry.term@);
            reveal_with_fuel(with_variants, 2);
        }
        put_key(&mut list, term, term);
        for j in 0..entry.heard.len()
            invariant
                term@ == entry.term@,
                variants == seq![entry.term@] + text::texts(entry.heard@),
                replacement_views(list@) == with_variants(before, term@, variants.take(j + 1)),
                forall|k: int|
                    0 <= k <= j && vstd::utf8::is_ascii_chars(
                        spaced(text::trimmed(#[trigger] variants[k])),
                    ) ==> heard_key(variants[k]) == defaults::small_key(variants[k]),
        {
            proof {
                assert(variants.take(j + 2).drop_last() =~= variants.take(j + 1));
                assert(variants.take(j + 2).last() == entry.heard@[j as int]@);
            }
            put_key(&mut list, entry.heard[j].as_str(), term);
        }
        proof {
            assert(variants.take(variants.len() as int) =~= variants);
            assert forall|m: int, k: int|
                0 <= m < i + 1 && 0 <= k < defaults::ways(views.take(i + 1)[m]).len()
                    && vstd::utf8::is_ascii_chars(
                    spaced(text::trimmed(#[trigger] defaults::ways(views.take(i + 1)[m])[k])),
                ) implies heard_key(defaults::ways(views.take(i + 1)[m])[k])
                == defaults::small_key(defaults::ways(views.take(i + 1)[m])[k]) by {
                if m < i {
                    assert(defaults::ways(views.take(i as int)[m])[k] == defaults::ways(
                        views.take(i + 1)[m],
                    )[k]);
                } else {
                    assert(defaults::ways(views.take(i + 1)[m]) =~= variants);
                    assert(variants[k] == defaults::ways(views.take(i + 1)[m])[k]);
                }
            }
        }
    }
    proof {
        assert(views.take(views.len() as int) =~= views);
    }
    list
}

/// The keys of `n` characters, in their order.
pub open spec fn of_length(keys: Seq<Seq<char>>, n: int) -> Seq<Seq<char>>
    decreases keys.len(),
{
    if keys.len() == 0 {
        Seq::empty()
    } else if keys.last().len() == n {
        of_length(keys.drop_last(), n).push(keys.last())
    } else {
        of_length(keys.drop_last(), n)
    }
}

/// The keys of at most `n` characters, the longest first and those of one length
/// in their order.
pub open spec fn longest_first(keys: Seq<Seq<char>>, n: int) -> Seq<Seq<char>>
    decreases n + 1,
{
    if n < 0 {
        Seq::empty()
    } else {
        of_length(keys, n) + longest_first(keys, n - 1)
    }
}

/// The length of the longest key.
pub open spec fn longest(keys: Seq<Seq<char>>) -> nat
    decreases keys.len(),
{
    if keys.len() == 0 {
        0
    } else if keys.last().len() > longest(keys.drop_last()) {
        keys.last().len()
    } else {
        longest(keys.drop_last())
    }
}

/// Whether a character means something of its own in a pattern.
pub open spec fn is_meta(c: char) -> bool {
    seq![
        '\\', '.', '+', '*', '?', '(', ')', '|', '[', ']', '{', '}', '^', '$', '#', '&', '-', '~',
    ].contains(c)
}

/// A text as a pattern that matches just it.
pub open spec fn pattern_literal(s: Seq<char>) -> Seq<char>
    decreases s.len(),
{
    if s.len() == 0 {
        Seq::empty()
    } else if is_meta(s.last()) {
        pattern_literal(s.drop_last()).push('\\').push(s.last())
    } else {
        pattern_literal(s.drop_last()).push(s.last())
    }
}

/// `regex::escape` puts a backslash before every character of a text that means
/// something of its own in a pattern.
pub assume_specification[ regex::escape ](pattern: &str) -> (r: String)
    ensures
        r@ == pattern_literal(pattern@),
;

pub open spec fn pattern_literals(pieces: Seq<Seq<char>>) -> Seq<Seq<char>> {
    pieces.map_values(|piece: Seq<char>| pattern_literal(piece))
}

/// A pattern for a key: its words, with any white space between.
pub open spec fn key_pattern(key: Seq<char>) -> Seq<char> {
    text::joined(pattern_literals(text::split_at(key, ' ')), "\\s+"@)
}

pub open spec fn key_patterns(keys: Seq<Seq<char>>) -> Seq<Seq<char>> {
    keys.map_values(|key: Seq<char>| key_pattern(key))
}

pub open spec fn keys_of(list: Seq<ReplacementView>) -> Seq<Seq<char>> {
    list.map_values(|replacement: ReplacementView| replacement.heard)
}

/// The pattern that matches any of `keys`, in capitals or small letters, and tries
/// them in their order.
pub open spec fn alternation(keys: Seq<Seq<char>>) -> Seq<char> {
    "(?i:"@ + text::joined(key_patterns(keys), "|"@) + ")"@
}

/// The pattern that finds what is to be rewritten: the keys, the longest first.
/// Where there is none, one that matches nothing in a text.
pub open spec fn search_pattern(list: Seq<ReplacementView>) -> Seq<char> {
    let keys = keys_of(list);
    let alternatives = longest_first(keys, longest(keys) as int);
    if text::joined(key_patterns(alternatives), "|"@).len() == 0 {
        "\\z\\A"@
    } else {
        alternation(alternatives)
    }
}

fn write_key(key: &str) -> (r: String)
    ensures
        r@ == key_pattern(key@),
{
    let pieces = text::split(key, ' ');
    let ghost all = text::texts(pieces@);
    let mut literals: Vec<String> = Vec::new();
    for i in 0..pieces.len()
        invariant
            all == text::texts(pieces@),
            text::texts(literals@) == pattern_literals(all.take(i as int)),
    {
        let ghost before = literals@;
        literals.push(regex::escape(pieces[i].as_str()));
        proof {
            assert(all.take(i + 1) =~= all.take(i as int).push(pieces@[i as int]@));
            assert(text::texts(literals@) =~= text::texts(before).push(
                pattern_literal(pieces@[i as int]@),
            ));
            assert(pattern_literals(all.take(i + 1)) =~= pattern_literals(all.take(i as int)).push(
                pattern_literal(pieces@[i as int]@),
            ));
        }
    }
    proof {
        assert(all.take(pieces@.len() as int) =~= all);
    }
    text::join(&literals, "\\s+")
}

fn find_longest(list: &Vec<Replacement>) -> (r: usize)
    ensures
        r == longest(keys_of(replacement_views(list@))),
{
    let ghost keys = keys_of(replacement_views(list@));
    let mut length: usize = 0;
    for i in 0..list.len()
        invariant
            keys == keys_of(replacement_views(list@)),
            length == longest(keys.take(i as int)),
    {
        proof {
            assert(keys.take(i + 1).drop_last() =~= keys.take(i as int));
            assert(keys.take(i + 1).last() == list@[i as int].heard@);
        }
        let size = list[i].heard.as_str().unicode_len();
        if size > length {
            length = size;
        }
    }
    proof {
        assert(keys.take(keys.len() as int) =~= keys);
    }
    length
}

fn write_length(list: &Vec<Replacement>, n: usize, out: &mut Vec<String>)
    ensures
        text::texts(final(out)@) == text::texts(old(out)@) + key_patterns(
            of_length(keys_of(replacement_views(list@)), n as int),
        ),
{
    let ghost keys = keys_of(replacement_views(list@));
    let ghost start = text::texts(out@);
    proof {
        assert(start + key_patterns(of_length(keys.take(0), n as int)) =~= start);
    }
    for i in 0..list.len()
        invariant
            keys == keys_of(replacement_views(list@)),
            text::texts(out@) == start + key_patterns(of_length(keys.take(i as int), n as int)),
    {
        proof {
            assert(keys.take(i + 1).drop_last() =~= keys.take(i as int));
            assert(keys.take(i + 1).last() == list@[i as int].heard@);
        }
        let key = list[i].heard.as_str();
        if key.unicode_len() == n {
            let ghost before = out@;
            let pattern = write_key(key);
            out.push(pattern);
            proof {
                assert(text::texts(out@) =~= text::texts(before).push(key_pattern(key@)));
                let shorter = of_length(keys.take(i as int), n as int);
                assert(key_patterns(shorter.push(key@)) =~= key_patterns(shorter).push(
                    key_pattern(key@),
                ));
            }
        }
    }
    proof {
        assert(keys.take(keys.len() as int) =~= keys);
    }
}

/// The pattern that finds what is to be rewritten.
pub fn write_pattern(list: &Vec<Replacement>) -> (r: String)
    ensures
        r@ == search_pattern(replacement_views(list@)),
{
    let ghost keys = keys_of(replacement_views(list@));
    let mut patterns: Vec<String> = Vec::new();
    let length = find_longest(list);
    let mut n: usize = length;
    write_length(list, n, &mut patterns);
    proof {
        let top = of_length(keys, length as int);
        let rest = longest_first(keys, length - 1);
        assert(text::texts(patterns@) =~= key_patterns(top));
        assert(key_patterns(top + rest) =~= key_patterns(top) + key_patterns(rest));
    }
    while n > 0
        invariant
            keys == keys_of(replacement_views(list@)),
            n <= length,
            text::texts(patterns@) + key_patterns(longest_first(keys, n - 1)) == key_patterns(
                longest_first(keys, length as int),
            ),
        decreases n,
    {
        let ghost before = text::texts(patterns@);
        n -= 1;
        write_length(list, n, &mut patterns);
        proof {
            let next = of_length(keys, n as int);
            let rest = longest_first(keys, n - 1);
            assert(key_patterns(next + rest) =~= key_patterns(next) + key_patterns(rest));
            assert(before + (key_patterns(next) + key_patterns(rest)) =~= before + key_patterns(
                next,
            ) + key_patterns(rest));
        }
    }
    proof {
        assert(key_patterns(longest_first(keys, -1)) =~= Seq::<Seq<char>>::empty());
        assert(text::texts(patterns@) =~= key_patterns(longest_first(keys, length as int)));
    }
    let body = text::join(&patterns, "|");
    if body.as_str().is_empty() {
        "\\z\\A".to_owned()
    } else {
        "(?i:".to_owned().concat(body.as_str()).concat(")")
    }
}

/// A compiled pattern.
#[verifier::external_type_specification]
#[verifier::external_body]
pub struct ExRegex(regex::Regex);

/// The text that `regex::Regex::new` compiled a pattern from; none where it was
/// built with options of its own.
pub uninterp spec fn regex_source(pattern: regex::Regex) -> Option<Seq<char>>;

/// `regex::Regex::new` compiles a pattern. It may refuse one that is too large when
/// compiled, which is counted in bytes of memory, so that nothing is said here of
/// when it does.
#[verifier::external_body]
fn compile(pattern: &str) -> (r: Option<regex::Regex>)
    ensures
        r matches Some(compiled) ==> regex_source(compiled) == Some(pattern@),
{
    regex::Regex::new(pattern).ok()
}

/// Whether `part` is `key` but for capitals of ASCII letters and for how much white
/// space there is where `key` has a space.
pub open spec fn reads_as(part: Seq<char>, key: Seq<char>) -> bool
    decreases part.len(),
{
    if part.len() == 0 || key.len() == 0 {
        part.len() == 0 && key.len() == 0
    } else if key[0] == ' ' {
        text::white_space(part[0]) && (reads_as(part.drop_first(), key.drop_first()) || reads_as(
            part.drop_first(),
            key,
        ))
    } else {
        text::lower(part[0]) == text::lower(key[0]) && reads_as(part.drop_first(), key.drop_first())
    }
}

/// Where in a text, from a byte on, the first match of a pattern starts that
/// `regex::Regex::new` compiled.
pub uninterp spec fn regex_start(pattern: Seq<char>, text: Seq<char>, from: int) -> Option<usize>;

/// Whether a part of `s` from byte `start` on reads as one of the keys that
/// `pattern` was written from.
pub open spec fn reads_at(pattern: Seq<char>, s: Seq<char>, start: int) -> bool {
    exists|keys: Seq<Seq<char>>, i: int, end: int|
        #![trigger alternation(keys), keys[i], text::piece(s, start, end)]
        pattern == alternation(keys) && 0 <= i < keys.len() && start <= end && text::cuts_at(
            s,
            end,
        ) && reads_as(text::piece(s, start, end), keys[i])
}

/// Whether a match of `pattern` starts at byte `start` of `s`.
pub open spec fn matches_at(pattern: Seq<char>, s: Seq<char>, start: int) -> bool {
    text::cuts_at(s, start) && (reads_at(pattern, s, start) || regex_start(pattern, s, start)
        == Some(start as usize))
}

/// `regex::Regex::find_at` gives the leftmost match of a pattern that starts at a
/// byte or behind it, here by its first byte, which is where a character starts or
/// the end. So where a search from a byte finds a match there, a search from an
/// earlier one finds a match that starts no later; and where a part of the text
/// reads as an alternative of the pattern, that part is a match. What else matches
/// by how Unicode folds case is left unsaid.
#[verifier::external_body]
fn find_start(pattern: &regex::Regex, text: &str, from: usize) -> (r: Option<usize>)
    requires
        regex_source(*pattern) is Some,
        text::cuts_at(text@, from as int),
    ensures
        r == regex_start(regex_source(*pattern).unwrap(), text@, from as int),
        r matches Some(start) ==> from <= start && text::cuts_at(text@, start as int),
        forall|start: int|
            from <= start && #[trigger] matches_at(regex_source(*pattern).unwrap(), text@, start)
                ==> r is Some && r.unwrap() <= start,
{
    pattern.find_at(text, from).map(|found| found.start())
}

/// Where in `s`, from byte `from` on, the matches of a pattern start: after each one
/// the search goes on from the next character.
pub open spec fn starts_from(pattern: Seq<char>, s: Seq<char>, from: int) -> Seq<usize>
    decreases text::byte_length(s) - from,
{
    match regex_start(pattern, s, from) {
        Some(start) => if from <= start < text::byte_length(s) {
            proof {
                text::lemma_next_cut(s, start as int);
            }
            seq![start] + starts_from(pattern, s, text::next_cut(s, start as int))
        } else {
            Seq::empty()
        },
        None => Seq::empty(),
    }
}

/// Whether `starts` are places in `s` where characters start, one behind the other.
pub open spec fn are_starts(s: Seq<char>, starts: Seq<usize>) -> bool {
    &&& forall|i: int|
        0 <= i < starts.len() ==> #[trigger] starts[i] < text::byte_length(s) && text::cuts_at(
            s,
            starts[i] as int,
        )
    &&& forall|i: int, j: int|
        0 <= i < j < starts.len() ==> #[trigger] starts[i] < #[trigger] starts[j]
}

/// Where in `text` the matches of a pattern start.
fn find_starts(pattern: &regex::Regex, text: &str) -> (r: Vec<usize>)
    requires
        regex_source(*pattern) is Some,
    ensures
        r@ == starts_from(regex_source(*pattern).unwrap(), text@, 0),
        are_starts(text@, r@),
        forall|start: int|
            0 <= start < text::byte_length(text@) && #[trigger] matches_at(
                regex_source(*pattern).unwrap(),
                text@,
                start,
            ) ==> start <= usize::MAX && r@.contains(start as usize),
{
    let ghost source = regex_source(*pattern).unwrap();
    let length = text.as_bytes().len();
    let mut out: Vec<usize> = Vec::new();
    let mut from: usize = 0;
    proof {
        text::lemma_whole(text@);
        assert(out@ + starts_from(source, text@, 0) =~= starts_from(source, text@, 0));
    }
    loop
        invariant
            regex_source(*pattern) == Some(source),
            length == text::byte_length(text@),
            text::cuts_at(text@, from as int),
            from <= length,
            out@ + starts_from(source, text@, from as int) == starts_from(source, text@, 0),
            are_starts(text@, out@),
            forall|i: int| 0 <= i < out@.len() ==> #[trigger] out@[i] < from,
            forall|start: int|
                0 <= start < from && #[trigger] matches_at(source, text@, start) ==> out@.contains(
                    start as usize,
                ),
        decreases length - from,
    {
        match find_start(pattern, text, from) {
            Some(start) => {
                if start >= length {
                    proof {
                        assert(out@ + starts_from(source, text@, from as int) =~= out@);
                    }
                    return out;
                }
                let ghost before = out@;
                let next = text::find_next_cut(text, start);
                out.push(start);
                proof {
                    text::lemma_next_cut(text@, start as int);
                    assert(out@ + starts_from(source, text@, next as int) =~= before
                        + starts_from(source, text@, from as int));
                    assert forall|at: int|
                        0 <= at < next && #[trigger] matches_at(
                            source,
                            text@,
                            at,
                        ) implies out@.contains(at as usize) by {
                        if at < from {
                            let i = choose|i: int| 0 <= i < before.len() && before[i] == at as usize;
                            assert(out@[i] == at as usize);
                        } else {
                            assert(text::cuts_at(text@, at));
                            assert(out@[before.len() as int] == at as usize);
                        }
                    }
                }
                from = next;
            },
            None => {
                proof {
                    assert(out@ + starts_from(source, text@, from as int) =~= out@);
                }
                return out;
            },
        }
    }
}

/// A character inside a word.
pub open spec fn word_char(c: char) -> bool {
    text::alphanumeric(c) || c == '_'
}

fn is_word_char(c: char) -> (r: bool)
    ensures
        r == word_char(c),
{
    c.is_alphanumeric() || c == '_'
}

/// Whether nothing before a match makes it part of something bigger.
pub open spec fn free_before(before: Seq<char>) -> bool {
    before.len() == 0 || {
        let c = before.last();
        !(word_char(c) || c == '\'' || c == '.' || c == '/' || c == '@' || c == '-')
    }
}

/// Whether nothing after a match makes it part of something bigger. A full stop
/// does so only in front of a word.
pub open spec fn free_after(after: Seq<char>) -> bool {
    if after.len() == 0 {
        true
    } else {
        let c = after[0];
        if word_char(c) || c == '\'' || c == '/' || c == '@' || c == '-' {
            false
        } else if c == '.' {
            !(after.len() > 1 && word_char(after[1]))
        } else {
            true
        }
    }
}

/// Whether the part of `s` from byte `start` to before byte `end` is not inside a
/// word, a domain, a path or a hyphenated word.
pub open spec fn stands_free(s: Seq<char>, start: int, end: int) -> bool {
    free_before(text::piece(s, 0, start)) && free_after(
        text::piece(s, end, text::byte_length(s)),
    )
}

/// What a part of `s` is rewritten to, if it is.
pub open spec fn rewritten_part(
    list: Seq<ReplacementView>,
    s: Seq<char>,
    start: int,
    end: int,
) -> Option<Seq<char>> {
    if stands_free(s, start, end) {
        term_of(list, text::lowercase(spaced(text::piece(s, start, end))))
    } else {
        None
    }
}

/// Whether a text is not empty and has no white space around it.
pub open spec fn is_trim(s: Seq<char>) -> bool {
    s.len() > 0 && !text::white_space(s[0]) && !text::white_space(s.last())
}

/// Whether the part of `s` from byte `start` to before byte `end` stands free and is
/// how a term is heard.
pub open spec fn is_known(
    list: Seq<ReplacementView>,
    s: Seq<char>,
    start: int,
    end: int,
) -> bool {
    &&& start < end
    &&& text::cuts_at(s, end)
    &&& is_trim(text::piece(s, start, end))
    &&& rewritten_part(list, s, start, end) is Some
}

/// Where the longest known part from byte `start` on ends that ends no later than
/// byte `end`, if there is one.
pub open spec fn known_end(
    list: Seq<ReplacementView>,
    s: Seq<char>,
    start: int,
    end: int,
) -> Option<int>
    decreases end - start,
{
    if end <= start {
        None
    } else if is_known(list, s, start, end) {
        Some(end)
    } else {
        known_end(list, s, start, end - 1)
    }
}

/// The parts of `s` from byte `from` on that are rewritten: from each of `starts`
/// that is not inside an earlier one, the longest known part.
pub open spec fn rewritten_parts(
    list: Seq<ReplacementView>,
    s: Seq<char>,
    starts: Seq<usize>,
    from: int,
) -> Seq<(int, int)>
    decreases starts.len(),
{
    if starts.len() == 0 {
        Seq::empty()
    } else {
        let start = starts[0] as int;
        let rest = starts.drop_first();
        match known_end(list, s, start, text::byte_length(s)) {
            Some(end) => if from <= start {
                seq![(start, end)] + rewritten_parts(list, s, rest, end)
            } else {
                rewritten_parts(list, s, rest, from)
            },
            None => rewritten_parts(list, s, rest, from),
        }
    }
}

/// `s` from byte `from` on, with terms in place of `parts`.
pub open spec fn replaced(
    list: Seq<ReplacementView>,
    s: Seq<char>,
    parts: Seq<(int, int)>,
    from: int,
) -> Seq<char>
    decreases parts.len(),
{
    if parts.len() == 0 {
        text::piece(s, from, text::byte_length(s))
    } else {
        let (start, end) = parts[0];
        text::piece(s, from, start) + rewritten_part(list, s, start, end).unwrap() + replaced(
            list,
            s,
            parts.drop_first(),
            end,
        )
    }
}

/// A text with the longest known parts from `starts` on rewritten.
pub open spec fn rewritten(
    list: Seq<ReplacementView>,
    s: Seq<char>,
    starts: Seq<usize>,
) -> Seq<char> {
    replaced(list, s, rewritten_parts(list, s, starts, 0), 0)
}

/// The parts of a text in which mishearings are corrected.
pub open spec fn corrected_parts(list: Seq<ReplacementView>, s: Seq<char>) -> Seq<(int, int)> {
    rewritten_parts(list, s, starts_from(search_pattern(list), s, 0), 0)
}

/// A text with its mishearings corrected.
pub open spec fn corrected(list: Seq<ReplacementView>, s: Seq<char>) -> Seq<char> {
    if s.len() == 0 {
        s
    } else {
        replaced(list, s, corrected_parts(list, s), 0)
    }
}

fn is_free_before(before: &str) -> (r: bool)
    ensures
        r == free_before(before@),
{
    let n = before.unicode_len();
    if n == 0 {
        return true;
    }
    let c = before.get_char(n - 1);
    !(is_word_char(c) || c == '\'' || c == '.' || c == '/' || c == '@' || c == '-')
}

fn is_free_after(after: &str) -> (r: bool)
    ensures
        r == free_after(after@),
{
    if after.is_empty() {
        return true;
    }
    let c = after.get_char(0);
    if is_word_char(c) || c == '\'' || c == '/' || c == '@' || c == '-' {
        false
    } else if c == '.' {
        !(after.unicode_len() > 1 && is_word_char(after.get_char(1)))
    } else {
        true
    }
}

/// Rewrites what is misheard.
pub struct Corrector {
    replacements: Vec<Replacement>,
    pattern: regex::Regex,
}

impl View for Corrector {
    type V = Seq<ReplacementView>;

    closed spec fn view(&self) -> Seq<ReplacementView> {
        replacement_views(self.replacements@)
    }
}

impl Corrector {
    /// The pattern is the one of the replacements.
    #[verifier::type_invariant]
    closed spec fn inv(self) -> bool {
        regex_source(self.pattern) == Some(
            search_pattern(replacement_views(self.replacements@)),
        )
    }

    /// A corrector for the default terms and those of a user's vocabulary; none
    /// where the pattern for them is too large to compile.
    pub fn new(user_vocabulary: &Json) -> (r: Option<Corrector>)
        ensures
            r matches Some(corrector) ==> {
                &&& corrector@ == entry_replacements(merged_entries(*user_vocabulary))
                &&& corrector.source() == Some(search_pattern(corrector@))
                &&& clean_entries(*user_vocabulary).len() == 0 ==> defaults::knows_defaults(
                    corrector@,
                )
            },
    {
        let entries = merge(user_vocabulary);
        let replacements = find_replacements(&entries);
        proof {
            if clean_entries(*user_vocabulary).len() == 0 {
                defaults::the_defaults_are_known();
            }
        }
        let pattern = write_pattern(&replacements);
        Corrector::with_pattern(replacements, compile(pattern.as_str()))
    }

    /// The text that the pattern was compiled from.
    pub closed spec fn source(&self) -> Option<Seq<char>> {
        regex_source(self.pattern)
    }

    /// A corrector for `replacements`, where their pattern, which [`write_pattern`]
    /// writes, was compiled; none where it was not.
    pub fn with_pattern(replacements: Vec<Replacement>, compiled: Option<regex::Regex>) -> (r: Option<
        Corrector,
    >)
        requires
            compiled matches Some(pattern) ==> regex_source(pattern) == Some(
                search_pattern(replacement_views(replacements@)),
            ),
        ensures
            match (r, compiled) {
                (Some(corrector), Some(pattern)) => corrector@ == replacement_views(replacements@)
                    && corrector.source() == regex_source(pattern),
                (None, None) => true,
                _ => false,
            },
    {
        match compiled {
            Some(pattern) => Some(Corrector { replacements, pattern }),
            None => None,
        }
    }

    /// Where the longest known part of `text` from `start` on ends, and the place of
    /// its replacement.
    fn find_part(&self, text: &str, start: usize) -> (r: Option<(usize, usize)>)
        requires
            text::cuts_at(text@, start as int),
        ensures
            match (r, known_end(self@, text@, start as int, text::byte_length(text@))) {
                (Some((end, at)), Some(known)) => {
                    &&& end == known
                    &&& start < end
                    &&& text::cuts_at(text@, end as int)
                    &&& at < self@.len()
                    &&& rewritten_part(self@, text@, start as int, end as int) == Some(
                        self@[at as int].term,
                    )
                },
                (None, None) => true,
                _ => false,
            },
    {
        let length = text.as_bytes().len();
        proof {
            text::lemma_whole(text@);
            lemma_known_end(self@, text@, start as int, length as int);
        }
        if !is_free_before(text::slice(text, 0, start)) {
            return None;
        }
        let mut end: usize = length;
        while end > start
            invariant
                length == text::byte_length(text@),
                text::cuts_at(text@, start as int),
                text::cuts_at(text@, length as int),
                free_before(text::piece(text@, 0, start as int)),
                start <= end <= length,
                known_end(self@, text@, start as int, text::byte_length(text@)) == known_end(
                    self@,
                    text@,
                    start as int,
                    end as int,
                ),
            decreases end,
        {
            if text.is_char_boundary(end) && is_free_after(text::slice(text, end, length)) {
                let part = text::slice(text, start, end);
                let n = part.unicode_len();
                if n > 0 && !text::is_white_space(part.get_char(0)) && !text::is_white_space(
                    part.get_char(n - 1),
                ) {
                    let spaced = normalize_whitespace(part);
                    let key = spaced.as_str().to_lowercase();
                    let at = find_key(&self.replacements, key.as_str());
                    if at < self.replacements.len() {
                        return Some((end, at));
                    }
                }
            }
            end -= 1;
        }
        None
    }

    /// `text` with the longest known parts from `starts` on rewritten.
    pub fn rewrite(&self, text: &str, starts: &Vec<usize>) -> (r: String)
        requires
            are_starts(text@, starts@),
        ensures
            r@ == rewritten(self@, text@, starts@),
    {
        let ghost list = self@;
        let ghost s = text@;
        let length = text.as_bytes().len();
        let mut out = String::new();
        let mut last_end: usize = 0;
        proof {
            text::lemma_whole(text@);
            assert(starts@.skip(0) =~= starts@);
            assert(out@ + rewritten(list, s, starts@) =~= rewritten(list, s, starts@));
        }
        for i in 0..starts.len()
            invariant
                list == self@,
                s == text@,
                are_starts(s, starts@),
                text::cuts_at(s, last_end as int),
                out@ + replaced(
                    list,
                    s,
                    rewritten_parts(list, s, starts@.skip(i as int), last_end as int),
                    last_end as int,
                ) == rewritten(list, s, starts@),
        {
            let start = starts[i];
            proof {
                assert(starts@.skip(i as int).drop_first() =~= starts@.skip(i + 1));
                assert(starts@.skip(i as int)[0] == starts@[i as int]);
            }
            if start >= last_end {
                if let Some((end, at)) = self.find_part(text, start) {
                    let ghost before = out@;
                    let term = self.replacements[at].term.as_str();
                    out = out.concat(text::slice(text, last_end, start)).concat(term);
                    proof {
                        let rest = rewritten_parts(list, s, starts@.skip(i + 1), end as int);
                        let parts = seq![(start as int, end as int)] + rest;
                        assert(parts.drop_first() =~= rest);
                        assert(term@ == list[at as int].term);
                        assert(out@ + replaced(list, s, rest, end as int) =~= before + replaced(
                            list,
                            s,
                            parts,
                            last_end as int,
                        ));
                    }
                    last_end = end;
                }
            }
        }
        proof {
            text::lemma_whole(text@);
            assert(starts@.skip(starts@.len() as int).len() == 0);
        }
        out.concat(text::slice(text, last_end, length))
    }

    /// `text` with its mishearings corrected.
    pub fn apply(&self, text: &str) -> (r: String)
        ensures
            r@ == corrected(self@, text@),
            is_corrected_throughout(self@, text@),
    {
        proof {
            use_type_invariant(self);
        }
        if text.is_empty() {
            proof {
                text::lemma_whole(text@);
            }
            return text.to_owned();
        }
        let starts = find_starts(&self.pattern, text);
        proof {
            let parts = corrected_parts(self@, text@);
            assert forall|start: int, end: int| #[trigger]
                is_listed(self@, text@, start, end) implies parts.contains((start, end))
                || is_covered(parts, start, end) by {
                a_listed_part_is_found(self@, text@, start, end);
                lemma_known_part(self@, text@, starts@, 0, start, end);
            }
        }
        self.rewrite(text, &starts)
    }
}

/// Corrects the mishearings in `text`.
pub fn correct(corrector: &Corrector, text: &str) -> (r: String)
    ensures
        r@ == corrected(corrector@, text@),
        is_corrected_throughout(corrector@, text@),
{
    corrector.apply(text)
}

proof fn lemma_known_end(list: Seq<ReplacementView>, s: Seq<char>, start: int, end: int)
    ensures
        match known_end(list, s, start, end) {
            Some(known) => {
                &&& start < known <= end
                &&& is_known(list, s, start, known)
                &&& forall|other: int| known < other <= end ==> !is_known(list, s, start, other)
            },
            None => forall|other: int| other <= end ==> !is_known(list, s, start, other),
        },
    decreases end - start,
{
    if start < end && !is_known(list, s, start, end) {
        lemma_known_end(list, s, start, end - 1);
    }
}

/// What is rewritten starts where it was looked for, is known, and is the longest
/// part from there that is. The parts come one after the other.
pub proof fn only_known_parts_are_rewritten(
    list: Seq<ReplacementView>,
    s: Seq<char>,
    starts: Seq<usize>,
    from: int,
)
    ensures
        forall|i: int|
            0 <= i < rewritten_parts(list, s, starts, from).len() ==> {
                let part = #[trigger] rewritten_parts(list, s, starts, from)[i];
                &&& from <= part.0
                &&& starts.contains(part.0 as usize)
                &&& is_known(list, s, part.0, part.1)
                &&& forall|end: int| part.1 < end ==> !is_known(list, s, part.0, end)
            },
        forall|i: int, j: int|
            0 <= i < j < rewritten_parts(list, s, starts, from).len() ==> (
            #[trigger] rewritten_parts(list, s, starts, from)[i]).1 <= (
            #[trigger] rewritten_parts(list, s, starts, from)[j]).0,
    decreases starts.len(),
{
    if starts.len() > 0 {
        let start = starts[0] as int;
        let rest = starts.drop_first();
        let all = rewritten_parts(list, s, starts, from);
        lemma_known_end(list, s, start, text::byte_length(s));
        let found = known_end(list, s, start, text::byte_length(s));
        let taken = found is Some && from <= start;
        let later = if taken {
            rewritten_parts(list, s, rest, found.unwrap())
        } else {
            rewritten_parts(list, s, rest, from)
        };
        let skip: int = if taken {
            1
        } else {
            0
        };
        only_known_parts_are_rewritten(
            list,
            s,
            rest,
            if taken {
                found.unwrap()
            } else {
                from
            },
        );
        assert forall|i: int| 0 <= i < all.len() implies {
            let part = #[trigger] all[i];
            &&& from <= part.0
            &&& starts.contains(part.0 as usize)
            &&& is_known(list, s, part.0, part.1)
            &&& forall|end: int| part.1 < end ==> !is_known(list, s, part.0, end)
        } by {
            if i < skip {
                assert(starts[0] == all[i].0 as usize);
            } else {
                assert(all[i] == later[i - skip]);
                assert(rest.contains(all[i].0 as usize));
                let j = choose|j: int| 0 <= j < rest.len() && rest[j] == all[i].0 as usize;
                assert(starts[j + 1] == rest[j]);
            }
        }
        assert forall|i: int, j: int| 0 <= i < j < all.len() implies (#[trigger] all[i]).1 <= (
        #[trigger] all[j]).0 by {
            assert(all[j] == later[j - skip]);
            if i >= skip {
                assert(all[i] == later[i - skip]);
            }
        }
    }
}

/// A text in which nothing is known stays as it is.
pub proof fn what_is_not_known_stays(
    list: Seq<ReplacementView>,
    s: Seq<char>,
    starts: Seq<usize>,
)
    requires
        forall|start: int, end: int| !is_known(list, s, start, end),
    ensures
        rewritten(list, s, starts) == s,
{
    only_known_parts_are_rewritten(list, s, starts, 0);
    let parts = rewritten_parts(list, s, starts, 0);
    if parts.len() > 0 {
        assert(is_known(list, s, parts[0].0, parts[0].1));
    }
    text::lemma_whole(s);
}

/// Whether a part that starts at byte `start` and ends before byte `end` starts
/// inside one of `parts`, or is the start of a longer one.
pub open spec fn is_covered(parts: Seq<(int, int)>, start: int, end: int) -> bool {
    exists|i: int|
        0 <= i < parts.len() && (#[trigger] parts[i]).0 <= start < parts[i].1 && parts[i] != (
            start,
            end,
        )
}

proof fn lemma_known_part(
    list: Seq<ReplacementView>,
    s: Seq<char>,
    starts: Seq<usize>,
    from: int,
    start: int,
    end: int,
)
    requires
        are_starts(s, starts),
        0 <= start <= usize::MAX,
        starts.contains(start as usize),
        is_known(list, s, start, end),
        from <= start,
    ensures
        rewritten_parts(list, s, starts, from).contains((start, end)) || is_covered(
            rewritten_parts(list, s, starts, from),
            start,
            end,
        ),
    decreases starts.len(),
{
    let all = rewritten_parts(list, s, starts, from);
    let first = starts[0] as int;
    let rest = starts.drop_first();
    let found = known_end(list, s, first, text::byte_length(s));
    let k = choose|k: int| 0 <= k < starts.len() && starts[k] == start as usize;
    lemma_known_end(list, s, first, text::byte_length(s));
    assert forall|i: int| 0 <= i < rest.len() implies #[trigger] rest[i] < text::byte_length(s)
        && text::cuts_at(s, rest[i] as int) by {
        assert(rest[i] == starts[i + 1]);
    }
    if k == 0 {
        assert(all[0] == (start, found.unwrap()));
        if found.unwrap() != end {
            assert(is_covered(all, start, end));
        }
    } else {
        assert(starts[0] < starts[k]);
        assert(rest[k - 1] == start as usize);
        if found is Some && from <= first {
            let known = found.unwrap();
            let later = rewritten_parts(list, s, rest, known);
            assert(all[0] == (first, known));
            if known <= start {
                lemma_known_part(list, s, rest, known, start, end);
                if later.contains((start, end)) {
                    let i = choose|i: int| 0 <= i < later.len() && later[i] == (start, end);
                    assert(all[i + 1] == (start, end));
                } else {
                    let i = choose|i: int|
                        0 <= i < later.len() && (#[trigger] later[i]).0 <= start < later[i].1
                            && later[i] != (start, end);
                    assert(all[i + 1] == later[i]);
                }
            } else {
                assert(is_covered(all, start, end));
            }
        } else {
            lemma_known_part(list, s, rest, from, start, end);
        }
    }
}

/// A known part that was looked for is rewritten, unless it starts inside another
/// part that is, or is the start of a longer one.
pub proof fn a_known_part_is_rewritten(
    list: Seq<ReplacementView>,
    s: Seq<char>,
    starts: Seq<usize>,
    start: int,
    end: int,
)
    requires
        are_starts(s, starts),
        0 <= start <= usize::MAX,
        starts.contains(start as usize),
        is_known(list, s, start, end),
        !is_covered(rewritten_parts(list, s, starts, 0), start, end),
    ensures
        rewritten_parts(list, s, starts, 0).contains((start, end)),
{
    lemma_known_part(list, s, starts, 0, start, end);
}

/// A part that is rewritten becomes its term, and what comes after it is rewritten
/// from its end on.
pub proof fn a_rewritten_part_becomes_its_term(
    list: Seq<ReplacementView>,
    s: Seq<char>,
    parts: Seq<(int, int)>,
    from: int,
    i: int,
)
    requires
        0 <= i < parts.len(),
    ensures
        exists|before: Seq<char>|
            replaced(list, s, parts, from) == #[trigger] (before + rewritten_part(
                list,
                s,
                parts[i].0,
                parts[i].1,
            ).unwrap()) + replaced(list, s, parts.skip(i + 1), parts[i].1),
    decreases i,
{
    let (start, end) = parts[0];
    let rest = parts.drop_first();
    let term = rewritten_part(list, s, parts[i].0, parts[i].1).unwrap();
    let after = replaced(list, s, parts.skip(i + 1), parts[i].1);
    if i == 0 {
        assert(parts.skip(1) =~= rest);
        assert(replaced(list, s, parts, from) == (text::piece(s, from, start) + term) + after);
    } else {
        a_rewritten_part_becomes_its_term(list, s, rest, end, i - 1);
        assert(rest.skip(i) =~= parts.skip(i + 1));
        assert(rest[i - 1] == parts[i]);
        let later = choose|before: Seq<char>|
            replaced(list, s, rest, end) == #[trigger] (before + term) + after;
        let first = text::piece(s, from, start) + rewritten_part(list, s, start, end).unwrap();
        assert(replaced(list, s, parts, from) =~= ((first + later) + term) + after);
    }
}

/// Only a part that stands free is rewritten, and only to a term.
pub proof fn only_free_parts_are_rewritten(
    list: Seq<ReplacementView>,
    s: Seq<char>,
    start: int,
    end: int,
)
    requires
        rewritten_part(list, s, start, end) is Some,
    ensures
        free_before(text::piece(s, 0, start)),
        free_after(text::piece(s, end, text::byte_length(s))),
        exists|i: int|
            0 <= i < list.len() && (#[trigger] list[i]).term == rewritten_part(
                list,
                s,
                start,
                end,
            ).unwrap(),
{
    let key = text::lowercase(spaced(text::piece(s, start, end)));
    text::lemma_first_where(list, is_heard(key));
    assert(list[key_place(list, key)].term == rewritten_part(list, s, start, end).unwrap());
}

proof fn lemma_with_key(
    list: Seq<ReplacementView>,
    key: Seq<char>,
    term: Seq<char>,
    other: Seq<char>,
)
    ensures
        term_of(with_key(list, key, term), other) == if other == key && key.len() > 0 {
            Some(term)
        } else {
            term_of(list, other)
        },
{
    if key.len() > 0 {
        let after = with_key(list, key, term);
        let i = key_place(list, key);
        let j = key_place(list, other);
        text::lemma_first_where(list, is_heard(key));
        text::lemma_first_where(list, is_heard(other));
        if other == key {
            assert forall|k: int| 0 <= k < i implies !is_heard(key)(#[trigger] after[k]) by {
                assert(!is_heard(key)(list[k]));
            }
            text::lemma_first_where_is(after, is_heard(key), i);
        } else {
            assert forall|k: int| 0 <= k < j implies !is_heard(other)(#[trigger] after[k]) by {
                assert(!is_heard(other)(list[k]));
            }
            if j < list.len() {
                assert(is_heard(other)(list[j]));
                assert(i != j);
                text::lemma_first_where_is(after, is_heard(other), j);
            } else {
                assert forall|k: int| 0 <= k < after.len() implies !is_heard(other)(
                    #[trigger] after[k],
                ) by {
                    if k < list.len() {
                        assert(!is_heard(other)(list[k]));
                    }
                }
                text::lemma_first_where_is(after, is_heard(other), after.len() as int);
            }
        }
    }
}

/// Whether one of `variants` is found by a key.
pub open spec fn any_heard(variants: Seq<Seq<char>>, key: Seq<char>) -> bool {
    exists|i: int| 0 <= i < variants.len() && heard_key(#[trigger] variants[i]) == key
}

proof fn lemma_with_variants(
    list: Seq<ReplacementView>,
    term: Seq<char>,
    variants: Seq<Seq<char>>,
    key: Seq<char>,
)
    requires
        key.len() > 0,
    ensures
        term_of(with_variants(list, term, variants), key) == if any_heard(variants, key) {
            Some(term)
        } else {
            term_of(list, key)
        },
    decreases variants.len(),
{
    if variants.len() > 0 {
        let before = variants.drop_last();
        let last = heard_key(variants.last());
        lemma_with_variants(list, term, before, key);
        lemma_with_key(with_variants(list, term, before), last, term, key);
        if any_heard(before, key) {
            let i = choose|i: int| 0 <= i < before.len() && heard_key(#[trigger] before[i]) == key;
            assert(heard_key(variants[i]) == key);
        }
        if any_heard(variants, key) && last != key {
            let i = choose|i: int|
                0 <= i < variants.len() && heard_key(#[trigger] variants[i]) == key;
            assert(heard_key(before[i]) == key);
        }
        if last == key {
            assert(heard_key(variants[variants.len() - 1]) == key);
        }
    }
}

/// Whether a term is heard so, or is that term itself.
pub open spec fn hears(entry: EntryView, key: Seq<char>) -> bool {
    any_heard(seq![entry.term] + entry.heard, key)
}

/// The last term in a vocabulary that is heard so.
pub open spec fn last_hearing(entries: Seq<EntryView>, key: Seq<char>) -> Option<Seq<char>>
    decreases entries.len(),
{
    if entries.len() == 0 {
        None
    } else if hears(entries.last(), key) {
        Some(entries.last().term)
    } else {
        last_hearing(entries.drop_last(), key)
    }
}

/// A key is rewritten to the last term that is heard so, and to nothing where no
/// term is: every way of hearing a term is known, and so is its own spelling.
pub proof fn every_way_of_hearing_is_known(entries: Seq<EntryView>, key: Seq<char>)
    requires
        key.len() > 0,
    ensures
        term_of(entry_replacements(entries), key) == last_hearing(entries, key),
    decreases entries.len(),
{
    if entries.len() > 0 {
        let entry = entries.last();
        every_way_of_hearing_is_known(entries.drop_last(), key);
        lemma_with_variants(
            entry_replacements(entries.drop_last()),
            entry.term,
            seq![entry.term] + entry.heard,
            key,
        );
    } else {
        text::lemma_first_where(Seq::<ReplacementView>::empty(), is_heard(key));
    }
}

/// A term that alone is heard so is what the key is rewritten to.
pub proof fn a_term_heard_alone_is_meant(entries: Seq<EntryView>, i: int, key: Seq<char>)
    requires
        key.len() > 0,
        0 <= i < entries.len(),
        hears(entries[i], key),
        forall|j: int| 0 <= j < entries.len() && j != i ==> !hears(#[trigger] entries[j], key),
    ensures
        term_of(entry_replacements(entries), key) == Some(entries[i].term),
{
    every_way_of_hearing_is_known(entries, key);
    lemma_last_hearing(entries, i, key);
}

proof fn lemma_last_hearing(entries: Seq<EntryView>, i: int, key: Seq<char>)
    requires
        0 <= i < entries.len(),
        hears(entries[i], key),
        forall|j: int| 0 <= j < entries.len() && j != i ==> !hears(#[trigger] entries[j], key),
    ensures
        last_hearing(entries, key) == Some(entries[i].term),
    decreases entries.len(),
{
    let last = entries.len() - 1;
    if i < last {
        assert(!hears(entries[last], key));
        let before = entries.drop_last();
        assert forall|j: int| 0 <= j < before.len() && j != i implies !hears(
            #[trigger] before[j],
            key,
        ) by {
            assert(!hears(entries[j], key));
        }
        lemma_last_hearing(before, i, key);
    }
}

/// Whether every term of one vocabulary is in another, heard in at least the same
/// ways.
pub open spec fn extended(entries: Seq<EntryView>, more: Seq<EntryView>) -> bool {
    entries.len() <= more.len() && forall|i: int|
        0 <= i < entries.len() ==> (#[trigger] more[i]).term == entries[i].term
            && entries[i].heard.is_prefix_of(more[i].heard)
}

proof fn lemma_extended(entries: Seq<EntryView>, list: Seq<EntryView>)
    ensures
        extended(entries, with_all_more(entries, list)),
    decreases list.len(),
{
    if list.len() == 0 {
        assert forall|i: int| 0 <= i < entries.len() implies (#[trigger] entries[i]).term
            == entries[i].term && entries[i].heard.is_prefix_of(entries[i].heard) by {
            assert(entries[i].heard.subrange(0, entries[i].heard.len() as int)
                =~= entries[i].heard);
        }
    } else {
        lemma_extended(entries, list.drop_last());
        let before = with_all_more(entries, list.drop_last());
        let after = with_all_more(entries, list);
        let entry = list.last();
        let k = term_place(before, entry.term);
        text::lemma_first_where(before, has_term(entry.term));
        assert forall|i: int| 0 <= i < entries.len() implies (#[trigger] after[i]).term
            == entries[i].term && entries[i].heard.is_prefix_of(after[i].heard) by {
            assert(before[i].term == entries[i].term);
            if i == k {
                let n = entries[i].heard.len() as int;
                assert(has_term(entry.term)(before[k]));
                assert(after[i].heard.subrange(0, n) =~= before[i].heard.subrange(0, n));
            }
        }
    }
}

/// The terms of a user come beside the default ones and never take away from them:
/// every default term stays, and is heard in the ways that it was.
pub proof fn the_defaults_are_kept(vocabulary: Json)
    ensures
        extended(default_entries(), merged_entries(vocabulary)),
{
    lemma_extended(default_entries(), clean_entries(vocabulary));
}

/// A user's vocabulary that is not an object leaves the default terms as they are.
pub proof fn only_an_object_is_a_vocabulary(vocabulary: Json)
    requires
        !(vocabulary is Object),
    ensures
        merged_entries(vocabulary) == default_entries(),
{
}

/// A member that is no entry is passed over, and the others count as if it were not
/// there.
pub proof fn a_malformed_member_is_passed_over(
    members: Seq<(String, Json)>,
    member: (String, Json),
)
    requires
        !(member.1 is Array) || text::trimmed(member.0@).len() == 0,
    ensures
        clean_members(members.push(member)) == clean_members(members),
{
    assert(members.push(member).drop_last() =~= members);
}

proof fn lemma_of_length(keys: Seq<Seq<char>>, n: int)
    ensures
        forall|i: int| 0 <= i < of_length(keys, n).len() ==> (#[trigger] of_length(keys, n)[i]).len() == n,
        forall|key: Seq<char>|
            keys.contains(key) && key.len() == n ==> #[trigger] of_length(keys, n).contains(key),
    decreases keys.len(),
{
    if keys.len() > 0 {
        let before = keys.drop_last();
        lemma_of_length(before, n);
        assert forall|key: Seq<char>| keys.contains(key) && key.len() == n implies #[trigger] of_length(
            keys,
            n,
        ).contains(key) by {
            let list = of_length(keys, n);
            let rest = of_length(before, n);
            let i = choose|i: int| 0 <= i < keys.len() && keys[i] == key;
            if i == keys.len() - 1 {
                assert(list[list.len() - 1] == key);
            } else {
                assert(before[i] == key);
                assert(rest.contains(key));
                let j = choose|j: int| 0 <= j < rest.len() && rest[j] == key;
                assert(list[j] == key);
            }
        }
    }
}

/// The alternatives of a pattern are from the longest to the shortest, so that a
/// phrase is tried before a word inside it, and every key is among them.
pub proof fn a_phrase_is_tried_before_its_words(keys: Seq<Seq<char>>, n: int)
    ensures
        forall|i: int, j: int|
            0 <= i < j < longest_first(keys, n).len() ==> (#[trigger] longest_first(keys, n)[i]).len()
                >= (#[trigger] longest_first(keys, n)[j]).len(),
        forall|i: int|
            0 <= i < longest_first(keys, n).len() ==> (#[trigger] longest_first(keys, n)[i]).len()
                <= n,
        forall|key: Seq<char>|
            keys.contains(key) && key.len() <= n ==> #[trigger] longest_first(keys, n).contains(
                key,
            ),
    decreases n + 1,
{
    if n >= 0 {
        let top = of_length(keys, n);
        let rest = longest_first(keys, n - 1);
        lemma_of_length(keys, n);
        a_phrase_is_tried_before_its_words(keys, n - 1);
        assert forall|key: Seq<char>|
            keys.contains(key) && key.len() <= n implies #[trigger] longest_first(keys, n).contains(
            key,
        ) by {
            let all = longest_first(keys, n);
            if key.len() == n {
                assert(top.contains(key));
                let i = choose|i: int| 0 <= i < top.len() && top[i] == key;
                assert(all[i] == key);
            } else {
                assert(rest.contains(key));
                let i = choose|i: int| 0 <= i < rest.len() && rest[i] == key;
                assert(all[top.len() + i] == key);
            }
        }
    }
}

proof fn lemma_reads_word(word: Seq<char>, part: Seq<char>, key: Seq<char>)
    requires
        forall|i: int| 0 <= i < word.len() ==> !text::white_space(#[trigger] word[i]),
        reads_as(part, key),
    ensures
        reads_as(word + part, text::lowered(word) + key),
    decreases word.len(),
{
    let small = text::lowered(word);
    if word.len() == 0 {
        assert(word + part =~= part);
        assert(small + key =~= key);
    } else {
        let rest = word.drop_first();
        assert forall|i: int| 0 <= i < rest.len() implies !text::white_space(#[trigger] rest[i]) by {
            assert(rest[i] == word[i + 1]);
        }
        lemma_reads_word(rest, part, key);
        assert((word + part).drop_first() =~= rest + part);
        assert((small + key).drop_first() =~= text::lowered(rest) + key);
        assert(!text::white_space(word[0]));
    }
}

proof fn lemma_reads_rest(s: Seq<char>)
    requires
        s.len() > 0,
        text::white_space(s[0]),
        !text::white_space(s.last()),
    ensures
        text::words(s).len() > 0,
        reads_as(s, seq![' '] + text::lowered(spaced(s))),
    decreases s.len(),
{
    let rest = s.drop_first();
    let key = seq![' '] + text::lowered(spaced(s));
    assert(rest.last() == s.last());
    assert(key.drop_first() =~= text::lowered(spaced(s)));
    if text::white_space(rest[0]) {
        lemma_reads_rest(rest);
    } else {
        lemma_reads_spaced(rest);
    }
}

/// A text without white space around it reads as its words in small letters.
proof fn lemma_reads_spaced(s: Seq<char>)
    requires
        is_trim(s),
    ensures
        text::words(s).len() > 0,
        spaced(s).len() > 0,
        reads_as(s, text::lowered(spaced(s))),
    decreases s.len(),
{
    let n = text::first_where(s, text::space());
    text::lemma_first_where(s, text::space());
    assert(text::space()(s[0]) == text::white_space(s[0]));
    let word = s.take(n);
    let rest = s.skip(n);
    assert forall|i: int| 0 <= i < word.len() implies !text::white_space(#[trigger] word[i]) by {
        assert(!text::space()(s[i]));
    }
    assert(s =~= word + rest);
    if n == s.len() {
        assert(text::words(rest) =~= Seq::<Seq<char>>::empty());
        assert(text::words(s) =~= seq![word]);
        lemma_reads_word(word, rest, Seq::empty());
        assert(text::lowered(word) + Seq::<char>::empty() =~= text::lowered(spaced(s)));
    } else {
        assert(text::space()(s[n]));
        assert(rest[0] == s[n]);
        lemma_reads_rest(rest);
        text::lemma_joined_first(word, text::words(rest), " "@);
        reveal_strlit(" ");
        let key = seq![' '] + text::lowered(spaced(rest));
        lemma_reads_word(word, rest, key);
        assert(text::lowered(word) + key =~= text::lowered(spaced(s)));
    }
}

proof fn lemma_longest(keys: Seq<Seq<char>>, i: int)
    requires
        0 <= i < keys.len(),
    ensures
        keys[i].len() <= longest(keys),
    decreases keys.len(),
{
    if i < keys.len() - 1 {
        lemma_longest(keys.drop_last(), i);
    }
}

proof fn lemma_literal(s: Seq<char>)
    ensures
        pattern_literal(s).len() >= s.len(),
    decreases s.len(),
{
    if s.len() > 0 {
        lemma_literal(s.drop_last());
    }
}

proof fn lemma_key_pattern(key: Seq<char>)
    requires
        key.len() > 0,
    ensures
        key_pattern(key).len() > 0,
{
    let pieces = text::split_at(key, ' ');
    let literals = pattern_literals(pieces);
    let i = text::first_where(key, text::equals(' '));
    text::lemma_first_where(key, text::equals(' '));
    text::lemma_joined_length(literals, "\\s+"@, 0);
    reveal_strlit("\\s+");
    if i < key.len() {
        assert(text::split_at(key.skip(i + 1), ' ').len() > 0);
    } else {
        assert(pieces[0] == key);
        assert(literals[0] == pattern_literal(key));
        lemma_literal(key);
    }
}

/// Whether the part of `s` from byte `start` to before byte `end` stands free and is
/// how a term is heard, and has no capitals but ASCII ones or is found by the
/// pattern all the same.
pub open spec fn is_listed(
    list: Seq<ReplacementView>,
    s: Seq<char>,
    start: int,
    end: int,
) -> bool {
    let words = spaced(text::piece(s, start, end));
    &&& text::cuts_at(s, start)
    &&& is_known(list, s, start, end)
    &&& text::lowercase(words) == text::lowered(words) || regex_start(
        search_pattern(list),
        s,
        start,
    ) == Some(start as usize)
}

/// What is listed is found by the pattern.
pub proof fn a_listed_part_is_found(
    list: Seq<ReplacementView>,
    s: Seq<char>,
    start: int,
    end: int,
)
    requires
        is_listed(list, s, start, end),
    ensures
        matches_at(search_pattern(list), s, start),
{
    let part = text::piece(s, start, end);
    let key = text::lowered(spaced(part));
    if text::lowercase(spaced(part)) == key {
        let all = keys_of(list);
        let n = longest(all) as int;
        let keys = longest_first(all, n);
        lemma_reads_spaced(part);
        let place = key_place(list, key);
        text::lemma_first_where(list, is_heard(key));
        assert(is_heard(key)(list[place]));
        assert(all[place] == key);
        lemma_longest(all, place);
        a_phrase_is_tried_before_its_words(all, n);
        assert(keys.contains(key));
        let i = choose|i: int| 0 <= i < keys.len() && keys[i] == key;
        lemma_key_pattern(key);
        text::lemma_joined_length(key_patterns(keys), "|"@, i);
        assert(key_patterns(keys)[i] == key_pattern(key));
        assert(search_pattern(list) == alternation(keys));
        assert(reads_as(text::piece(s, start, end), keys[i]));
    }
}

/// Whether everything listed in `s` is rewritten, but for what starts inside another
/// part that is, or is the start of a longer one.
pub open spec fn is_corrected_throughout(list: Seq<ReplacementView>, s: Seq<char>) -> bool {
    forall|start: int, end: int| #[trigger]
        is_listed(list, s, start, end) ==> corrected_parts(list, s).contains((start, end))
            || is_covered(corrected_parts(list, s), start, end)
}

/// A part of a text is rewritten where it is how a term is heard, in capitals or small
/// letters and with any white space between its words, and touches nothing that makes it
/// part of something bigger: before it no letter, numeral or underscore, and no apostrophe,
/// full stop, slash, at sign or hyphen, and behind it none of these either, but that a full
/// stop counts only in front of a letter, numeral or underscore.
pub proof fn a_part_is_rewritten_where_it_touches_no_word(
    list: Seq<ReplacementView>,
    a: Seq<char>,
    part: Seq<char>,
    b: Seq<char>,
)
    ensures
        ({
            let free = (a.len() == 0 || !(text::alphanumeric(a.last()) || a.last() == '_' || a.last()
                == '\'' || a.last() == '.' || a.last() == '/' || a.last() == '@' || a.last() == '-'))
                && (b.len() == 0 || !(text::alphanumeric(b[0]) || b[0] == '_' || b[0] == '\'' || b[0]
                == '/' || b[0] == '@' || b[0] == '-' || (b[0] == '.' && b.len() > 1 && (
            text::alphanumeric(b[1]) || b[1] == '_'))));
            let term = term_of(list, text::lowercase(text::joined(text::words(part), " "@)));
            let start = text::byte_length(a);
            let end = text::byte_length(a + part);
            &&& rewritten_part(list, a + part + b, start, end) == if free {
                term
            } else {
                None
            }
            &&& is_known(list, a + part + b, start, end) <==> free && term is Some && part.len() > 0
                && !text::white_space(part[0]) && !text::white_space(part.last())
        }),
{
    text::lemma_pieces(a, part, b);
}

/// A key is rewritten to the term of the first replacement that is heard so, and to nothing
/// where none is. A way of hearing is known by its words in small letters, with a space
/// between each.
pub proof fn a_key_is_rewritten_to_its_term(
    list: Seq<ReplacementView>,
    key: Seq<char>,
    i: int,
    variant: Seq<char>,
)
    ensures
        0 <= i < list.len() && list[i].heard == key && (forall|j: int|
            0 <= j < i ==> (#[trigger] list[j]).heard != key) ==> term_of(list, key) == Some(
            list[i].term,
        ),
        (forall|j: int| 0 <= j < list.len() ==> (#[trigger] list[j]).heard != key) ==> term_of(
            list,
            key,
        ) is None,
        heard_key(variant) == text::lowercase(
            text::joined(text::words(text::trimmed(variant)), " "@),
        ),
{
    text::lemma_first_where(list, is_heard(key));
    let k = key_place(list, key);
    if k < list.len() {
        assert(is_heard(key)(list[k]));
    }
    if 0 <= i < list.len() && list[i].heard == key && (forall|j: int|
        0 <= j < i ==> (#[trigger] list[j]).heard != key) {
        assert forall|j: int| 0 <= j < i implies !is_heard(key)(#[trigger] list[j]) by {
            assert(list[j].heard != key);
        }
        text::lemma_first_where_is(list, is_heard(key), i);
    }
}

/// What is between the parts that are rewritten stays: up to the first of them the text is
/// as it was, then comes its term, and then the rest with the other parts rewritten. With
/// none left the rest is as it was.
pub proof fn what_is_between_rewritten_parts_stays(
    list: Seq<ReplacementView>,
    a: Seq<char>,
    part: Seq<char>,
    b: Seq<char>,
    rest: Seq<(int, int)>,
    term: Seq<char>,
)
    requires
        rewritten_part(
            list,
            a + part + b,
            text::byte_length(a),
            text::byte_length(a + part),
        ) == Some(term),
    ensures
        ({
            let s = a + part + b;
            let first = (text::byte_length(a), text::byte_length(a + part));
            &&& replaced(list, s, seq![first] + rest, 0) == a + term + replaced(
                list,
                s,
                rest,
                text::byte_length(a + part),
            )
            &&& replaced(list, s, Seq::empty(), text::byte_length(a + part)) == b
            &&& replaced(list, s, seq![first], 0) == a + term + b
            &&& replaced(list, s, Seq::empty(), 0) == s
            &&& s.len() > 0 && corrected_parts(list, s) == seq![first] ==> corrected(list, s) == a
                + term + b
            &&& s.len() > 0 && corrected_parts(list, s).len() == 0 ==> corrected(list, s) == s
        }),
{
    let s = a + part + b;
    let first = (text::byte_length(a), text::byte_length(a + part));
    text::lemma_pieces(a, part, b);
    text::lemma_whole(s);
    assert((seq![first] + rest).drop_first() =~= rest);
    assert(seq![first].drop_first() =~= Seq::<(int, int)>::empty());
    assert((seq![first] + rest)[0] == first);
    assert(replaced(list, s, seq![first] + rest, 0) == text::piece(s, 0, first.0) + term
        + replaced(list, s, rest, first.1));
    assert(replaced(list, s, Seq::empty(), first.1) == b);
    assert(replaced(list, s, seq![first], 0) == text::piece(s, 0, first.0) + term + replaced(
        list,
        s,
        Seq::empty(),
        first.1,
    ));
    if corrected_parts(list, s).len() == 0 {
        assert(corrected_parts(list, s) =~= Seq::<(int, int)>::empty());
    }
}

/// Where a text was corrected throughout, a part of it that is how a term is heard, with no
/// capitals but ASCII ones, and touches no word, is rewritten, or starts inside a part that
/// is, or is the start of a longer one.
pub proof fn a_word_that_is_listed_is_corrected(
    list: Seq<ReplacementView>,
    a: Seq<char>,
    part: Seq<char>,
    b: Seq<char>,
)
    requires
        is_corrected_throughout(list, a + part + b),
        part.len() > 0,
        !text::white_space(part[0]),
        !text::white_space(part.last()),
        ({
            let words = text::joined(text::words(part), " "@);
            text::lowercase(words) == text::lowered(words) && term_of(list, text::lowered(words)) is Some
        }),
        ({
            let free = (a.len() == 0 || !(text::alphanumeric(a.last()) || a.last() == '_' || a.last()
                == '\'' || a.last() == '.' || a.last() == '/' || a.last() == '@' || a.last() == '-'))
                && (b.len() == 0 || !(text::alphanumeric(b[0]) || b[0] == '_' || b[0] == '\'' || b[0]
                == '/' || b[0] == '@' || b[0] == '-' || (b[0] == '.' && b.len() > 1 && (
            text::alphanumeric(b[1]) || b[1] == '_'))));
            free
        }),
    ensures
        ({
            let parts = corrected_parts(list, a + part + b);
            let start = text::byte_length(a);
            let end = text::byte_length(a + part);
            exists|i: int|
                0 <= i < parts.len() && (#[trigger] parts[i]).0 <= start < parts[i].1 && (parts[i].0
                    == start ==> parts[i].1 >= end)
        }),
{
    let s = a + part + b;
    let start = text::byte_length(a);
    let end = text::byte_length(a + part);
    let parts = corrected_parts(list, s);
    a_part_is_rewritten_where_it_touches_no_word(list, a, part, b);
    text::lemma_pieces(a, part, b);
    assert(is_listed(list, s, start, end));
    only_known_parts_are_rewritten(list, s, starts_from(search_pattern(list), s, 0), 0);
    if parts.contains((start, end)) {
        let i = choose|i: int| 0 <= i < parts.len() && parts[i] == (start, end);
        assert(parts[i].0 <= start < parts[i].1);
    } else {
        let i = choose|i: int|
            0 <= i < parts.len() && (#[trigger] parts[i]).0 <= start < parts[i].1 && parts[i] != (
                start,
                end,
            );
        if parts[i].0 == start && parts[i].1 < end {
            assert(!is_known(list, s, parts[i].0, end));
        }
    }
}

/// A member of a user's vocabulary whose name is more than white space, with a list for its
/// value, is an entry: the name without the white space around it, heard in the ways of the
/// strings in the list that are more than white space, without the white space around them.
/// It takes the place of an entry of the same term before it.
pub proof fn a_wellformed_member_is_an_entry(
    members: Seq<(String, Json)>,
    name: String,
    items: Vec<Json>,
)
    requires
        text::trimmed(name@).len() > 0,
    ensures
        ({
            let before = clean_members(members);
            let after = clean_members(members.push((name, Json::Array(items))));
            let term = text::trimmed(name@);
            let entry = EntryView { term, heard: spoken(string_items(items@)) };
            &&& after.contains(entry)
            &&& forall|i: int|
                0 <= i < before.len() && (#[trigger] before[i]).term != term ==> after[i]
                    == before[i]
            &&& after.len() == before.len() || (after.len() == before.len() + 1 && forall|i: int|
                0 <= i < before.len() ==> (#[trigger] before[i]).term != term)
        }),
{
    let before = clean_members(members);
    let all = members.push((name, Json::Array(items)));
    let after = clean_members(all);
    let term = text::trimmed(name@);
    let entry = EntryView { term, heard: spoken(string_items(items@)) };
    assert(all.drop_last() =~= members);
    let place = term_place(before, term);
    text::lemma_first_where(before, has_term(term));
    if place < before.len() {
        assert(has_term(term)(before[place]));
        assert(after[place] == entry);
    } else {
        assert(after[before.len() as int] == entry);
        assert forall|i: int| 0 <= i < before.len() implies (#[trigger] before[i]).term != term by {
            assert(!has_term(term)(before[i]));
        }
    }
}

/// Of a list the strings count, and of these what is left without the white space around
/// them, where anything is.
pub proof fn only_strings_that_say_something_count(
    items: Seq<Json>,
    item: Json,
    list: Seq<Seq<char>>,
    heard: Seq<char>,
)
    ensures
        string_items(items.push(item)) == match item {
            Json::Text(text) => string_items(items).push(text@),
            _ => string_items(items),
        },
        string_items(Seq::empty()).len() == 0,
        spoken(list.push(heard)) == if text::trimmed(heard).len() > 0 {
            spoken(list).push(text::trimmed(heard))
        } else {
            spoken(list)
        },
        spoken(Seq::empty()).len() == 0,
{
    assert(items.push(item).drop_last() =~= items);
    assert(list.push(heard).drop_last() =~= list);
}

/// A term that a user adds to a vocabulary is heard in the user's ways too, behind those
/// that it is heard in already; a new term comes last. All other terms stay.
pub proof fn a_users_ways_of_hearing_are_added(
    entries: Seq<EntryView>,
    list: Seq<EntryView>,
    entry: EntryView,
)
    ensures
        ({
            let before = with_all_more(entries, list);
            let after = with_all_more(entries, list.push(entry));
            &&& with_all_more(entries, Seq::empty()) == entries
            &&& forall|i: int|
                0 <= i < before.len() && (#[trigger] before[i]).term != entry.term ==> after[i]
                    == before[i]
            &&& forall|i: int|
                0 <= i < before.len() && (#[trigger] before[i]).term == entry.term && (forall|j: int|
                    0 <= j < i ==> (#[trigger] before[j]).term != entry.term) ==> after[i].term
                    == entry.term && after[i].heard == before[i].heard + entry.heard && after.len()
                    == before.len()
            &&& (forall|i: int|
                0 <= i < before.len() ==> (#[trigger] before[i]).term != entry.term) ==> after
                == before.push(entry)
        }),
{
    let before = with_all_more(entries, list);
    let after = with_all_more(entries, list.push(entry));
    assert(list.push(entry).drop_last() =~= list);
    let place = term_place(before, entry.term);
    text::lemma_first_where(before, has_term(entry.term));
    if place < before.len() {
        assert(has_term(entry.term)(before[place]));
    }
    assert forall|i: int|
        0 <= i < before.len() && (#[trigger] before[i]).term == entry.term && (forall|j: int|
            0 <= j < i ==> (#[trigger] before[j]).term != entry.term) implies after[i].term
        == entry.term && after[i].heard == before[i].heard + entry.heard && after.len()
        == before.len() by {
        assert forall|j: int| 0 <= j < i implies !has_term(entry.term)(#[trigger] before[j]) by {
            assert(before[j].term != entry.term);
        }
        text::lemma_first_where_is(before, has_term(entry.term), i);
    }
}

/// The terms of a corrector are the default ones and then those of the user's vocabulary,
/// where that is an object.
pub proof fn a_corrector_has_the_default_terms_and_the_users(members: Vec<(String, Json)>)
    ensures
        merged_entries(Json::Object(members)) == with_all_more(
            default_entries(),
            clean_members(members@),
        ),
        clean_members(Seq::empty()).len() == 0,
        merged_entries(Json::Null) == default_entries(),
{
}

/// A text is corrected in the parts that are found by the pattern from its start on, and
/// rewriting the parts found from other places does the same there.
pub proof fn a_text_is_corrected_where_the_pattern_finds_something(
    list: Seq<ReplacementView>,
    s: Seq<char>,
    starts: Seq<usize>,
)
    ensures
        rewritten(list, s, starts) == replaced(list, s, rewritten_parts(list, s, starts, 0), 0),
        corrected_parts(list, s) == rewritten_parts(
            list,
            s,
            starts_from(search_pattern(list), s, 0),
            0,
        ),
        s.len() > 0 ==> corrected(list, s) == rewritten(
            list,
            s,
            starts_from(search_pattern(list), s, 0),
        ),
        s.len() == 0 ==> corrected(list, s) == s,
{
}

} // verus!
