//! The calls into the `regex` crate. Their contracts are taken on trust:
//! each says what the crate's function returns, and nothing here proves it.
//!
//! Every `Regex` of this library is made by `Regex::new` and used where it
//! was made: no public function takes or returns one.
use regex::Regex;
use vstd::prelude::*;

verus! {

#[verifier::external_type_specification]
#[verifier::external_body]
pub struct ExRegex(regex::Regex);

#[verifier::external_type_specification]
#[verifier::external_body]
pub struct ExRegexError(regex::Error);

/// `c` is one of the characters that have a meaning in a pattern:
/// `\ . + * ? ( ) | [ ] { } ^ $ # & - ~`.
pub open spec fn is_meta_character(c: char) -> bool {
    ||| c == '\\'
    ||| c == '.'
    ||| c == '+'
    ||| c == '*'
    ||| c == '?'
    ||| c == '('
    ||| c == ')'
    ||| c == '|'
    ||| c == '['
    ||| c == ']'
    ||| c == '{'
    ||| c == '}'
    ||| c == '^'
    ||| c == '$'
    ||| c == '#'
    ||| c == '&'
    ||| c == '-'
    ||| c == '~'
}

/// `text` with a backslash put before each meta character.
pub open spec fn escaped(text: Seq<char>) -> Seq<char>
    decreases text.len(),
{
    if text.len() == 0 {
        text
    } else if is_meta_character(text.last()) {
        escaped(text.drop_last()).push('\\').push(text.last())
    } else {
        escaped(text.drop_last()).push(text.last())
    }
}

/// Whether `Regex::new` accepts `pattern`: whether the pattern is
/// well-formed and compiles within the crate's default size limit.
pub uninterp spec fn pattern_compiles(pattern: Seq<char>) -> bool;

/// What a compiled `Regex` was made from. `Regex::new` makes it from the
/// pattern alone, under the crate's default options, and this is then the
/// pattern.
pub uninterp spec fn pattern_of(re: Regex) -> Seq<char>;

/// Whether `Regex::is_match` finds a match anywhere in `text`, for a
/// `Regex` made from `pattern`.
pub uninterp spec fn pattern_matches(pattern: Seq<char>, text: Seq<char>) -> bool;

/// `regex::escape`: the result is the text with a backslash before each
/// meta character and every other character as it is.
pub assume_specification[ regex::escape ](pattern: &str) -> (quoted: String)
    ensures
        quoted@ == escaped(pattern@),
;

/// `Regex::new`: whether it succeeds depends on the pattern alone, and the
/// `Regex` it returns is made from that pattern.
pub assume_specification[ Regex::new ](re: &str) -> (compiled: Result<Regex, regex::Error>)
    ensures
        compiled is Ok <==> pattern_compiles(re@),
        compiled matches Ok(regex) ==> pattern_of(regex) == re@,
;

/// `Regex::is_match`: the answer depends on what the `Regex` was made from
/// and on the text alone.
pub assume_specification[ Regex::is_match ](re: &Regex, haystack: &str) -> (found: bool)
    ensures
        found == pattern_matches(pattern_of(*re), haystack@),
;

/// `text` with every occurrence of `literal` replaced by `replacement`:
/// the occurrences are taken from left to right and do not overlap, and
/// every other character stays as it is.
pub open spec fn replace_each(text: Seq<char>, literal: Seq<char>, replacement: Seq<char>) -> Seq<
    char,
>
    recommends
        literal.len() > 0,
    decreases text.len(),
{
    if literal.len() == 0 || text.len() < literal.len() {
        text
    } else if text.subrange(0, literal.len() as int) == literal {
        replacement + replace_each(
            text.subrange(literal.len() as int, text.len() as int),
            literal,
            replacement,
        )
    } else {
        seq![text.first()] + replace_each(text.drop_first(), literal, replacement)
    }
}

/// `Regex::replace_all` with a `NoExpand` replacement, so that `$` in the
/// replacement stands for itself.
///
/// A `Regex` made from an escaped text matches that text and nothing
/// else, and `replace_all` replaces the matches it finds from left to
/// right, none overlapping another. So for such a `Regex`, of a text that
/// is not empty, the result is `replace_each`. Of any other `Regex`
/// nothing is said.
#[verifier::external_body]
pub(crate) fn replace_all_literally(re: &Regex, haystack: &str, replacement: &str) -> (replaced:
    String)
    ensures
        forall|literal: Seq<char>|
            literal.len() > 0 && pattern_of(*re) == #[trigger] escaped(literal) ==> replaced@
                == replace_each(haystack@, literal, replacement@),
{
    re.replace_all(haystack, regex::NoExpand(replacement)).into_owned()
}

/// Escaping goes character by character: the escaped form of two texts
/// joined is the two escaped forms joined.
pub proof fn lemma_escaped_concat(a: Seq<char>, b: Seq<char>)
    ensures
        escaped(a + b) == escaped(a) + escaped(b),
    decreases b.len(),
{
    if b.len() == 0 {
        assert(a + b =~= a);
        assert(escaped(a) + escaped(b) =~= escaped(a));
    } else {
        assert((a + b).drop_last() =~= a + b.drop_last());
        assert((a + b).last() == b.last());
        lemma_escaped_concat(a, b.drop_last());
        assert(escaped(a + b) =~= escaped(a) + escaped(b));
    }
}

} // verus!
