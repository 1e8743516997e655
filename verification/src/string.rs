//! Text utilities: comma-separated lists, SQL literal helpers, whole-word
//! search and `{{placeholder}}` templates.
use crate::pattern::{
    escaped, lemma_escaped_concat, pattern_compiles, pattern_matches, pattern_of,
    replace_all_literally, replace_each,
};
use regex::Regex;
use std::collections::HashMap;
use vstd::pervasive::unreached;
use vstd::prelude::*;

verus! {

/// `c` is whitespace in the sense of Unicode (`White_Space`): the
/// characters that `char::is_whitespace` accepts.
pub open spec fn is_whitespace(c: char) -> bool {
    let u = c as u32;
    ||| 0x09 <= u <= 0x0D
    ||| u == 0x20
    ||| u == 0x85
    ||| u == 0xA0
    ||| u == 0x1680
    ||| 0x2000 <= u <= 0x200A
    ||| u == 0x2028
    ||| u == 0x2029
    ||| u == 0x202F
    ||| u == 0x205F
    ||| u == 0x3000
}

/// `s` without its leading whitespace.
pub open spec fn trim_start(s: Seq<char>) -> Seq<char>
    decreases s.len(),
{
    if s.len() > 0 && is_whitespace(s.first()) {
        trim_start(s.drop_first())
    } else {
        s
    }
}

/// `s` without its trailing whitespace.
pub open spec fn trim_end(s: Seq<char>) -> Seq<char>
    decreases s.len(),
{
    if s.len() > 0 && is_whitespace(s.last()) {
        trim_end(s.drop_last())
    } else {
        s
    }
}

/// `s` without its leading and trailing whitespace.
pub open spec fn trim(s: Seq<char>) -> Seq<char> {
    trim_end(trim_start(s))
}

/// The pieces of `s` between its commas: one more piece than commas.
pub open spec fn comma_pieces(s: Seq<char>) -> Seq<Seq<char>>
    decreases s.len(),
{
    if s.len() == 0 {
        seq![Seq::empty()]
    } else if s.last() == ',' {
        comma_pieces(s.drop_last()).push(Seq::empty())
    } else {
        let before = comma_pieces(s.drop_last());
        before.drop_last().push(before.last().push(s.last()))
    }
}

/// The pieces trimmed, without those that are empty after trimming.
pub open spec fn trimmed_items(pieces: Seq<Seq<char>>) -> Seq<Seq<char>>
    decreases pieces.len(),
{
    if pieces.len() == 0 {
        Seq::empty()
    } else if trim(pieces.last()).len() == 0 {
        trimmed_items(pieces.drop_last())
    } else {
        trimmed_items(pieces.drop_last()).push(trim(pieces.last()))
    }
}

/// The items of a comma-separated list.
pub open spec fn list_items(s: Seq<char>) -> Seq<Seq<char>> {
    trimmed_items(comma_pieces(s))
}

/// The texts that a sequence of strings holds.
pub open spec fn texts_of(strings: Seq<String>) -> Seq<Seq<char>> {
    Seq::new(strings.len(), |i: int| strings[i]@)
}

proof fn lemma_comma_pieces_nonempty(s: Seq<char>)
    ensures
        comma_pieces(s).len() > 0,
    decreases s.len(),
{
    if s.len() > 0 {
        lemma_comma_pieces_nonempty(s.drop_last());
    }
}

proof fn lemma_trim_start_push(s: Seq<char>, c: char)
    ensures
        trim_start(s.push(c)) == if trim_start(s).len() == 0 && is_whitespace(c) {
            Seq::<char>::empty()
        } else {
            trim_start(s).push(c)
        },
    decreases s.len(),
{
    if s.len() == 0 {
        assert(s.push(c).drop_first() =~= Seq::<char>::empty());
        assert(trim_start(s) =~= Seq::<char>::empty());
        assert(trim_start(Seq::<char>::empty()) =~= Seq::<char>::empty());
        assert(s.push(c).first() == c);
    } else {
        assert(s.push(c).first() == s.first());
        assert(s.push(c).drop_first() =~= s.drop_first().push(c));
        if is_whitespace(s.first()) {
            lemma_trim_start_push(s.drop_first(), c);
        }
    }
}

proof fn lemma_trim_end_padded(text: Seq<char>, padding: Seq<char>)
    requires
        text.len() == 0 || !is_whitespace(text.last()),
        forall|i: int| 0 <= i < padding.len() ==> is_whitespace(#[trigger] padding[i]),
    ensures
        trim_end(text + padding) == text,
    decreases padding.len(),
{
    if padding.len() == 0 {
        assert(text + padding =~= text);
    } else {
        assert((text + padding).last() == padding.last());
        assert((text + padding).drop_last() =~= text + padding.drop_last());
        lemma_trim_end_padded(text, padding.drop_last());
    }
}

fn char_is_whitespace(c: char) -> (r: bool)
    ensures
        r == is_whitespace(c),
{
    let u: u32 = c as u32;
    (0x09 <= u && u <= 0x0D) || u == 0x20 || u == 0x85 || u == 0xA0 || u == 0x1680 || (0x2000 <= u
        && u <= 0x200A) || u == 0x2028 || u == 0x2029 || u == 0x202F || u == 0x205F || u == 0x3000
}

/// Splits a comma-separated list into its items: each piece between
/// commas is trimmed of whitespace at both ends, and pieces that are empty
/// after trimming are left out.
pub fn to_array(comma_separated_values: &str) -> (items: Vec<String>)
    ensures
        texts_of(items@) == list_items(comma_separated_values@),
{
    let ghost text = comma_separated_values@;
    let mut items: Vec<String> = Vec::new();
    let mut item = String::new();
    let mut padding = String::new();
    for c in it: comma_separated_values.chars()
        invariant
            it.seq() == text,
            text == comma_separated_values@,
            texts_of(items@) == trimmed_items(
                comma_pieces(text.subrange(0, it.index() as int)).drop_last(),
            ),
            item@ + padding@ == trim_start(
                comma_pieces(text.subrange(0, it.index() as int)).last(),
            ),
            item@.len() == 0 || !is_whitespace(item@.last()),
            item@.len() == 0 ==> padding@.len() == 0,
            forall|i: int| 0 <= i < padding@.len() ==> is_whitespace(#[trigger] padding@[i]),
    {
        let ghost before = text.subrange(0, it.index() as int);
        let ghost after = text.subrange(0, it.index() + 1);
        let ghost piece = comma_pieces(before).last();
        proof {
            assert(after.drop_last() =~= before);
            assert(after.last() == c);
            lemma_comma_pieces_nonempty(before);
            lemma_trim_end_padded(item@, padding@);
            lemma_trim_start_push(piece, c);
        }
        if c == ',' {
            proof {
                assert(comma_pieces(after).drop_last() =~= comma_pieces(before));
                assert(comma_pieces(before).last() == piece);
                assert(trim(piece) == item@);
                assert(trim_start(Seq::<char>::empty()) =~= Seq::<char>::empty());
            }
            if !item.as_str().is_empty() {
                items.push(item);
            }
            item = String::new();
            padding = String::new();
        } else {
            proof {
                assert(comma_pieces(after).drop_last() =~= comma_pieces(before).drop_last());
                assert(comma_pieces(after).last() == piece.push(c));
            }
            if char_is_whitespace(c) {
                if !item.as_str().is_empty() {
                    padding.push(c);
                }
            } else {
                item.append(padding.as_str());
                item.push(c);
                padding = String::new();
            }
        }
    }
    proof {
        assert(text.subrange(0, text.len() as int) =~= text);
        lemma_comma_pieces_nonempty(text);
        lemma_trim_end_padded(item@, padding@);
        assert(comma_pieces(text) =~= comma_pieces(text).drop_last().push(
            comma_pieces(text).last(),
        ));
    }
    if !item.as_str().is_empty() {
        items.push(item);
    }
    items
}

/// `s` with every occurrence of `c` written twice.
pub open spec fn double_each(s: Seq<char>, c: char) -> Seq<char>
    decreases s.len(),
{
    if s.len() == 0 {
        s
    } else if s.last() == c {
        double_each(s.drop_last(), c).push(c).push(c)
    } else {
        double_each(s.drop_last(), c).push(s.last())
    }
}

fn double_char(input: &str, c: char) -> (doubled: String)
    ensures
        doubled@ == double_each(input@, c),
{
    let mut doubled = String::new();
    for current in it: input.chars()
        invariant
            it.seq() == input@,
            doubled@ == double_each(input@.subrange(0, it.index() as int), c),
    {
        proof {
            let after = input@.subrange(0, it.index() + 1);
            assert(after.drop_last() =~= input@.subrange(0, it.index() as int));
        }
        if current == c {
            doubled.push(c);
        }
        doubled.push(current);
    }
    proof {
        assert(input@.subrange(0, input@.len() as int) =~= input@);
    }
    doubled
}

/// Doubles every backslash, then every single quote.
pub fn escape_sql(input: &str) -> (escaped: String)
    ensures
        escaped@ == double_each(double_each(input@, '\\'), '\''),
{
    let backslashes_doubled = double_char(input, '\\');
    double_char(backslashes_doubled.as_str(), '\'')
}

/// Wraps the text in single quotes, as it is.
pub fn enclose_quotes(name: &str) -> (quoted: String)
    ensures
        quoted@ == seq!['\''] + name@ + seq!['\''],
{
    let mut quoted = String::new();
    quoted.push('\'');
    quoted.append(name);
    quoted.push('\'');
    quoted
}

/// The pattern that finds `word` as a whole word in any letter case:
/// `(?i)\b{start-half}`, then the word with its meta characters escaped,
/// then `\b{end-half}`. The two assertions ask that no word character
/// stands just before the occurrence and none just after it; whether the
/// word itself begins or ends with a word character does not matter.
pub open spec fn word_pattern(word: Seq<char>) -> Seq<char> {
    "(?i)\\b{start-half}"@ + escaped(word) + "\\b{end-half}"@
}

/// The placeholder of `name` as it stands in a template: `{{name}}`.
pub open spec fn placeholder_text(name: Seq<char>) -> Seq<char> {
    seq!['{', '{'] + name + seq!['}', '}']
}

/// The pattern that finds the placeholder `{{name}}`: `\{\{`, then the
/// name with its meta characters escaped, then `\}\}`.
pub open spec fn placeholder_pattern(name: Seq<char>) -> Seq<char> {
    seq!['\\', '{', '\\', '{'] + escaped(name) + seq!['\\', '}', '\\', '}']
}

/// The pattern of one of the words matches in `text`.
pub open spec fn some_word_matches(text: Seq<char>, words: Seq<String>) -> bool {
    exists|i: int|
        0 <= i < words.len() && pattern_matches(word_pattern(#[trigger] words[i]@), text)
}

/// The words can be searched one after the other until one is found: the
/// pattern of every word compiles, as far as no word before it is found.
pub open spec fn words_searchable(text: Seq<char>, words: Seq<String>) -> bool {
    forall|i: int|
        0 <= i < words.len() && !some_word_matches(text, words.take(i)) ==> pattern_compiles(
            word_pattern(#[trigger] words[i]@),
        )
}

fn build_word_pattern(word: &str) -> (pattern: String)
    ensures
        pattern@ == word_pattern(word@),
{
    let quoted = regex::escape(word);
    let mut pattern = "(?i)\\b{start-half}".to_owned();
    pattern.append(quoted.as_str());
    pattern.append("\\b{end-half}");
    pattern
}

/// The pattern of a placeholder is the escaped form of the placeholder's
/// text, so it matches that text and nothing else.
pub proof fn lemma_placeholder_pattern_is_escaped_text(name: Seq<char>)
    ensures
        placeholder_pattern(name) == escaped(placeholder_text(name)),
        placeholder_text(name).len() > 0,
{
    let open = seq!['{', '{'];
    let close = seq!['}', '}'];
    assert(escaped(open) =~= seq!['\\', '{', '\\', '{']) by {
        reveal_with_fuel(escaped, 3);
        assert(open.drop_last() =~= seq!['{']);
        assert(open.drop_last().drop_last() =~= Seq::<char>::empty());
    }
    assert(escaped(close) =~= seq!['\\', '}', '\\', '}']) by {
        reveal_with_fuel(escaped, 3);
        assert(close.drop_last() =~= seq!['}']);
        assert(close.drop_last().drop_last() =~= Seq::<char>::empty());
    }
    lemma_escaped_concat(open, name);
    lemma_escaped_concat(open + name, close);
}

fn build_placeholder_pattern(name: &str) -> (pattern: String)
    ensures
        pattern@ == placeholder_pattern(name@),
{
    let quoted = regex::escape(name);
    let mut pattern = String::new();
    pattern.push('\\');
    pattern.push('{');
    pattern.push('\\');
    pattern.push('{');
    pattern.append(quoted.as_str());
    pattern.push('\\');
    pattern.push('}');
    pattern.push('\\');
    pattern.push('}');
    pattern
}

fn compiles(pattern: &str) -> (ok: bool)
    ensures
        ok == pattern_compiles(pattern@),
{
    Regex::new(pattern).is_ok()
}

fn compile(pattern: &str) -> (re: Regex)
    requires
        pattern_compiles(pattern@),
    ensures
        pattern_of(re) == pattern@,
{
    match Regex::new(pattern) {
        Ok(re) => re,
        Err(_) => unreached(),
    }
}

/// Whether `word` occurs in `src` as a whole word, in any letter case: an
/// occurrence counts where no word character (a letter, a digit or `_`)
/// stands just before it and none just after it, so that a non-word
/// character or an end of `src` bounds it on both sides.
///
/// The word is searched with the pattern `word_pattern(word)`, which must
/// compile; `try_is_contain_word` tests that first.
pub fn is_contain_word(src: &str, word: &str) -> (found: bool)
    requires
        pattern_compiles(word_pattern(word@)),
    ensures
        found == pattern_matches(word_pattern(word@), src@),
{
    let pattern = build_word_pattern(word);
    let re = compile(pattern.as_str());
    re.is_match(src)
}

/// `is_contain_word` for any word: `None` where the word's pattern does
/// not compile.
pub fn try_is_contain_word(src: &str, word: &str) -> (found: Option<bool>)
    ensures
        found == if pattern_compiles(word_pattern(word@)) {
            Some(pattern_matches(word_pattern(word@), src@))
        } else {
            None
        },
{
    let pattern = build_word_pattern(word);
    if compiles(pattern.as_str()) {
        Some(is_contain_word(src, word))
    } else {
        None
    }
}

/// Whether one of `words` occurs in `src` as a whole word, in any letter
/// case; `false` for no words.
///
/// The words are searched in order until one is found, and the pattern of
/// each word searched must compile; `try_has_contain_words` tests that.
pub fn has_contain_words(src: &str, words: &[String]) -> (found: bool)
    requires
        words_searchable(src@, words@),
    ensures
        found == some_word_matches(src@, words@),
{
    let mut i: usize = 0;
    while i < words.len()
        invariant
            i <= words@.len(),
            words_searchable(src@, words@),
            forall|k: int|
                0 <= k < i ==> !pattern_matches(word_pattern(#[trigger] words@[k]@), src@),
        decreases words.len() - i,
    {
        if is_contain_word(src, words[i].as_str()) {
            return true;
        }
        i += 1;
    }
    false
}

/// `has_contain_words` for any words: `None` where a word has to be
/// searched whose pattern does not compile.
pub fn try_has_contain_words(src: &str, words: &[String]) -> (found: Option<bool>)
    ensures
        found == if words_searchable(src@, words@) {
            Some(some_word_matches(src@, words@))
        } else {
            None
        },
{
    let mut i: usize = 0;
    while i < words.len()
        invariant
            i <= words@.len(),
            forall|k: int|
                0 <= k < i ==> pattern_compiles(word_pattern(#[trigger] words@[k]@))
                    && !pattern_matches(word_pattern(words@[k]@), src@),
        decreases words.len() - i,
    {
        match try_is_contain_word(src, words[i].as_str()) {
            None => {
                return None;
            },
            Some(true) => {
                proof {
                    assert forall|j: int|
                        i < j < words@.len() implies some_word_matches(src@, words@.take(j)) by {
                        assert(words@.take(j)[i as int] == words@[i as int]);
                    }
                }
                return Some(has_contain_words(src, words));
            },
            Some(false) => {},
        }
        i += 1;
    }
    Some(has_contain_words(src, words))
}

/// Among no words none is found, and there is nothing to compile.
pub proof fn lemma_no_words_none_found(text: Seq<char>)
    ensures
        words_searchable(text, Seq::<String>::empty()),
        !some_word_matches(text, Seq::<String>::empty()),
{
}

/// Replaces every occurrence of `{{placeholder}}` in `input` by
/// `replacement`, both taken literally: the occurrences are taken from
/// left to right and do not overlap, and all other text stays as it is.
///
/// The placeholder is searched with the pattern
/// `placeholder_pattern(placeholder)`, which must compile;
/// `try_replace_placeholder` tests that first.
pub fn replace_placeholder(input: &str, placeholder: &str, replacement: &str) -> (output: String)
    requires
        pattern_compiles(placeholder_pattern(placeholder@)),
    ensures
        output@ == replace_each(input@, placeholder_text(placeholder@), replacement@),
{
    let pattern = build_placeholder_pattern(placeholder);
    let re = compile(pattern.as_str());
    proof {
        lemma_placeholder_pattern_is_escaped_text(placeholder@);
    }
    replace_all_literally(&re, input, replacement)
}

/// `replace_placeholder` for any placeholder: `None` where the
/// placeholder's pattern does not compile.
pub fn try_replace_placeholder(input: &str, placeholder: &str, replacement: &str) -> (output:
    Option<String>)
    ensures
        match output {
            Some(text) => pattern_compiles(placeholder_pattern(placeholder@)) && text@
                == replace_each(input@, placeholder_text(placeholder@), replacement@),
            None => !pattern_compiles(placeholder_pattern(placeholder@)),
        },
{
    let pattern = build_placeholder_pattern(placeholder);
    if compiles(pattern.as_str()) {
        Some(replace_placeholder(input, placeholder, replacement))
    } else {
        None
    }
}

/// `literal` stands somewhere in `text`.
pub open spec fn occurs_in(literal: Seq<char>, text: Seq<char>) -> bool {
    exists|i: int|
        0 <= i <= text.len() - literal.len() && #[trigger] text.subrange(i, i + literal.len())
            == literal
}

/// A text in which the literal does not occur comes back as it is.
pub proof fn lemma_no_occurrence_no_change(
    text: Seq<char>,
    literal: Seq<char>,
    replacement: Seq<char>,
)
    requires
        !occurs_in(literal, text),
    ensures
        replace_each(text, literal, replacement) == text,
    decreases text.len(),
{
    if literal.len() > 0 && text.len() >= literal.len() {
        assert(text.subrange(0int, 0int + literal.len()) != literal);
        let rest = text.drop_first();
        assert forall|i: int| 0 <= i <= rest.len() - literal.len() implies #[trigger] rest.subrange(
            i,
            i + literal.len(),
        ) != literal by {
            assert(rest.subrange(i, i + literal.len()) =~= text.subrange(
                i + 1,
                i + 1 + literal.len(),
            ));
        }
        lemma_no_occurrence_no_change(rest, literal, replacement);
        assert(seq![text.first()] + rest =~= text);
    }
}

/// Where the literal first occurs, the text before it stays as it is, the
/// occurrence becomes the replacement, and the text after it is treated
/// in the same way.
pub proof fn lemma_first_occurrence_replaced(
    before: Seq<char>,
    literal: Seq<char>,
    after: Seq<char>,
    replacement: Seq<char>,
)
    requires
        literal.len() > 0,
        forall|i: int|
            0 <= i < before.len() ==> #[trigger] (before + literal + after).subrange(
                i,
                i + literal.len(),
            ) != literal,
    ensures
        replace_each(before + literal + after, literal, replacement) == before + replacement
            + replace_each(after, literal, replacement),
    decreases before.len(),
{
    let text = before + literal + after;
    if before.len() == 0 {
        assert(text.subrange(0, literal.len() as int) =~= literal);
        assert(text.subrange(literal.len() as int, text.len() as int) =~= after);
        assert(before + replacement =~= replacement);
    } else {
        let rest = before.drop_first();
        assert(text.subrange(0int, 0int + literal.len()) != literal);
        assert(text.drop_first() =~= rest + literal + after);
        assert forall|i: int| 0 <= i < rest.len() implies #[trigger] (rest + literal
            + after).subrange(i, i + literal.len()) != literal by {
            assert((rest + literal + after).subrange(i, i + literal.len()) =~= text.subrange(
                i + 1,
                i + 1 + literal.len(),
            ));
        }
        lemma_first_occurrence_replaced(rest, literal, after, replacement);
        assert(seq![text.first()] + (rest + replacement + replace_each(
            after,
            literal,
            replacement,
        )) =~= before + replacement + replace_each(after, literal, replacement));
    }
}

/// `order` lists every entry of `entries` once: each of its pairs is an
/// entry, no name comes twice, and no entry is missing.
pub open spec fn is_walk_of(order: Seq<(String, String)>, entries: Map<String, String>) -> bool {
    &&& forall|i: int|
        0 <= i < order.len() ==> entries.contains_pair((#[trigger] order[i]).0, order[i].1)
    &&& forall|i: int, j: int|
        0 <= i < j < order.len() ==> (#[trigger] order[i]).0 != (#[trigger] order[j]).0
    &&& forall|name: String| #[trigger]
        entries.contains_key(name) ==> exists|i: int|
            0 <= i < order.len() && (#[trigger] order[i]).0 == name
}

/// The placeholder pattern of every name in `order` compiles.
pub open spec fn names_compile(order: Seq<(String, String)>) -> bool {
    forall|i: int|
        0 <= i < order.len() ==> pattern_compiles(placeholder_pattern((#[trigger] order[i]).0@))
}

/// The placeholder pattern of every name in `entries` compiles.
pub open spec fn entries_compile(entries: Map<String, String>) -> bool {
    forall|name: String| #[trigger]
        entries.contains_key(name) ==> pattern_compiles(placeholder_pattern(name@))
}

/// `template` after the replacements of `order`, applied one after the
/// other from the first to the last, each to the result of the one before.
pub open spec fn replaced_in_order(template: Seq<char>, order: Seq<(String, String)>) -> Seq<char>
    decreases order.len(),
{
    if order.len() == 0 {
        template
    } else {
        replace_each(
            replaced_in_order(template, order.drop_last()),
            placeholder_text(order.last().0@),
            order.last().1@,
        )
    }
}

/// Walks the map with `HashMap::iter` and clones each entry it visits. The
/// walk visits every entry exactly once, in an order of the map's choosing.
#[verifier::external_body]
fn entries_of(map: &HashMap<String, String>) -> (order: Vec<(String, String)>)
    ensures
        is_walk_of(order@, map@),
{
    map.iter().map(|(name, value)| (name.clone(), value.clone())).collect()
}

/// Applies `replace_placeholder` once for each pair of `replacements`, in
/// their order, each to the result of the one before.
///
/// Every name's pattern must compile.
pub fn replace_placeholders_in_order(template: &str, replacements: &[(String, String)]) -> (output:
    String)
    requires
        names_compile(replacements@),
    ensures
        output@ == replaced_in_order(template@, replacements@),
{
    let mut output = template.to_owned();
    let mut i: usize = 0;
    while i < replacements.len()
        invariant
            i <= replacements@.len(),
            names_compile(replacements@),
            output@ == replaced_in_order(template@, replacements@.subrange(0, i as int)),
        decreases replacements.len() - i,
    {
        proof {
            assert(replacements@.subrange(0, i + 1).drop_last() =~= replacements@.subrange(
                0,
                i as int,
            ));
        }
        let entry = &replacements[i];
        output = replace_placeholder(output.as_str(), entry.0.as_str(), entry.1.as_str());
        i += 1;
    }
    proof {
        assert(replacements@.subrange(0, i as int) =~= replacements@);
    }
    output
}

/// Applies `replace_placeholder` once for each entry of `replacements`.
///
/// The entries are taken in the order in which the map hands them out,
/// which is not fixed: where a replacement value holds the placeholder of
/// another entry, the result depends on that order. The contract says that
/// the result is that of some order. Placeholders without an entry stay as
/// they are.
///
/// Every name's pattern must compile;
/// `try_replace_multiple_placeholders` tests that first.
pub fn replace_multiple_placeholders(template: &str, replacements: &HashMap<String, String>) -> (output:
    String)
    requires
        entries_compile(replacements@),
    ensures
        exists|order: Seq<(String, String)>| #[trigger]
            is_walk_of(order, replacements@) && output@ == replaced_in_order(template@, order),
{
    let order = entries_of(replacements);
    replace_placeholders_in_order(template, order.as_slice())
}

/// `replace_multiple_placeholders` for any map: `None` where the pattern
/// of one of its names does not compile.
pub fn try_replace_multiple_placeholders(
    template: &str,
    replacements: &HashMap<String, String>,
) -> (output: Option<String>)
    ensures
        match output {
            Some(text) => entries_compile(replacements@) && exists|order: Seq<(String, String)>|
                #[trigger] is_walk_of(order, replacements@) && text@ == replaced_in_order(
                    template@,
                    order,
                ),
            None => !entries_compile(replacements@),
        },
{
    let order = entries_of(replacements);
    let mut i: usize = 0;
    while i < order.len()
        invariant
            i <= order@.len(),
            is_walk_of(order@, replacements@),
            forall|k: int|
                0 <= k < i ==> pattern_compiles(placeholder_pattern((#[trigger] order@[k]).0@)),
        decreases order.len() - i,
    {
        let pattern = build_placeholder_pattern(order[i].0.as_str());
        if !compiles(pattern.as_str()) {
            return None;
        }
        i += 1;
    }
    Some(replace_multiple_placeholders(template, replacements))
}

/// Without entries nothing is replaced: a walk of the empty map is empty,
/// and the template comes back as it is.
pub proof fn lemma_no_entries_no_change(template: Seq<char>, order: Seq<(String, String)>)
    requires
        is_walk_of(order, Map::<String, String>::empty()),
    ensures
        order.len() == 0,
        replaced_in_order(template, order) == template,
{
    if order.len() > 0 {
        assert(Map::<String, String>::empty().contains_pair(order[0].0, order[0].1));
    }
}

} // verus!
