//! Character-level normalization: trimming, marker-substring removal and
//! Unicode lowercasing, together with the fixed punctuation set.

use vstd::prelude::*;

verus! {

broadcast use vstd::string::axiom_spec_iter;

/// The fixed punctuation set: a token that consists of exactly one of
/// these characters carries no sentiment information and is discarded.
pub open spec fn is_punct_char(c: char) -> bool {
    ||| c == '!'
    ||| c == '"'
    ||| c == '#'
    ||| c == '$'
    ||| c == '%'
    ||| c == '&'
    ||| c == '\''
    ||| c == '('
    ||| c == ')'
    ||| c == '*'
    ||| c == '+'
    ||| c == ','
    ||| c == ';'
    ||| c == '.'
    ||| c == '/'
    ||| c == ':'
    ||| c == '<'
    ||| c == '='
    ||| c == '>'
    ||| c == '?'
    ||| c == '@'
    ||| c == '['
    ||| c == '\\'
    ||| c == ']'
    ||| c == '^'
    ||| c == '_'
    ||| c == '`'
    ||| c == '{'
    ||| c == '|'
    ||| c == '}'
    ||| c == '~'
    ||| c == '-'
}

/// Decides membership in the fixed punctuation set.
pub fn punct_char(c: char) -> (r: bool)
    ensures
        r == is_punct_char(c),
{
    c == '!' || c == '"' || c == '#' || c == '$' || c == '%' || c == '&' || c == '\'' || c == '('
        || c == ')' || c == '*' || c == '+' || c == ',' || c == ';' || c == '.' || c == '/'
        || c == ':' || c == '<' || c == '=' || c == '>' || c == '?' || c == '@' || c == '['
        || c == '\\' || c == ']' || c == '^' || c == '_' || c == '`' || c == '{' || c == '|'
        || c == '}' || c == '~' || c == '-'
}

/// One left-to-right pass that deletes every non-overlapping occurrence of
/// the marker substrings `'s`, `,` and `.`; text between and around the
/// deleted occurrences is kept unchanged.
pub open spec fn strip_marks(s: Seq<char>) -> Seq<char>
    decreases s.len(),
{
    if s.len() == 0 {
        Seq::empty()
    } else if s.len() >= 2 && s[0] == '\'' && s[1] == 's' {
        strip_marks(s.skip(2))
    } else if s[0] == ',' || s[0] == '.' {
        strip_marks(s.skip(1))
    } else {
        seq![s[0]] + strip_marks(s.skip(1))
    }
}

/// The characters of a word after leading and trailing whitespace are
/// removed, as `str::trim` removes them.
pub uninterp spec fn trim_of(s: Seq<char>) -> Seq<char>;

/// The characters of a word after Unicode lowercasing, as
/// `str::to_lowercase` performs it; the result depends on the characters
/// alone.
pub uninterp spec fn lower_of(s: Seq<char>) -> Seq<char>;

/// The full normalization of one raw word: trim surrounding whitespace,
/// delete the marker substrings, lowercase what is left.
pub open spec fn canon(w: Seq<char>) -> Seq<char> {
    lower_of(strip_marks(trim_of(w)))
}

/// Relies on `str::trim`: it returns the same characters with leading and
/// trailing whitespace removed.  Trimming the result again removes
/// nothing, since no leading or trailing whitespace is left in it.
#[verifier::external_body]
pub(crate) fn trimmed(s: &str) -> (r: String)
    ensures
        r@ == trim_of(s@),
        trim_of(r@) == r@,
{
    s.trim().to_string()
}

/// Relies on `str::to_lowercase`: it returns the Unicode lowercase
/// equivalent of the string, a function of the characters alone.
/// Lowercasing is idempotent (every character of a lowercase mapping is
/// itself lowercase), and it maps no character to `,` or `.`, so those
/// marks can be neither reintroduced nor created.
#[verifier::external_body]
pub(crate) fn lowercased(s: &str) -> (r: String)
    ensures
        r@ == lower_of(s@),
        lower_of(r@) == r@,
        !s@.contains(',') ==> !r@.contains(','),
        !s@.contains('.') ==> !r@.contains('.'),
{
    s.to_lowercase()
}

/// The result of one stripping pass holds no `,` and no `.` character:
/// every occurrence is deleted.
pub proof fn lemma_strip_marks_free(s: Seq<char>)
    ensures
        !strip_marks(s).contains(','),
        !strip_marks(s).contains('.'),
    decreases s.len(),
{
    if s.len() == 0 {
    } else if s.len() >= 2 && s[0] == '\'' && s[1] == 's' {
        lemma_strip_marks_free(s.skip(2));
    } else if s[0] == ',' || s[0] == '.' {
        lemma_strip_marks_free(s.skip(1));
    } else {
        lemma_strip_marks_free(s.skip(1));
        let r = strip_marks(s);
        assert(r == seq![s[0]] + strip_marks(s.skip(1)));
        assert forall|c: char| (c == ',' || c == '.') implies !r.contains(c) by {
            if r.contains(c) {
                let i = choose|i: int| 0 <= i < r.len() && r[i] == c;
                if i == 0 {
                    assert(s[0] == c);
                } else {
                    assert(strip_marks(s.skip(1))[i - 1] == c);
                    assert(strip_marks(s.skip(1)).contains(c));
                }
            }
        }
    }
}

/// Collects the characters of a string slice into a vector.
pub fn chars_vec(s: &str) -> (r: Vec<char>)
    ensures
        r@ == s@,
{
    let mut out: Vec<char> = Vec::new();
    for c in it: s.chars()
        invariant
            it.seq() == s@,
            out@.len() == it.index(),
            forall|i: int| 0 <= i < out@.len() ==> out@[i] == it.seq()[i],
    {
        out.push(c);
    }
    proof {
        assert(out@ =~= s@);
    }
    out
}

/// Relies on `String::from_iter`: the collected string holds exactly the
/// characters of the vector, in order.
#[verifier::external_body]
pub(crate) fn string_of(cs: &Vec<char>) -> (r: String)
    ensures
        r@ == cs@,
{
    cs.iter().collect()
}

/// The substrings of a text between UAX 29 word boundaries, in order; a
/// function of the characters alone.
pub uninterp spec fn word_bounds_of(s: Seq<char>) -> Seq<Seq<char>>;

/// Relies on `UnicodeSegmentation::split_word_bounds`: it splits the
/// string at UAX 29 word boundaries, and the concatenation of the
/// returned substrings is the original string.
#[verifier::external_body]
pub(crate) fn split_word_bounds(s: &str) -> (r: Vec<String>)
    ensures
        r@.map_values(|w: String| w@) == word_bounds_of(s@),
{
    unicode_segmentation::UnicodeSegmentation::split_word_bounds(s)
        .map(|w| w.to_string())
        .collect()
}

/// The extended grapheme clusters of a text, in order; a function of the
/// characters alone.
pub uninterp spec fn graphemes_of(s: Seq<char>) -> Seq<Seq<char>>;

/// Relies on `UnicodeSegmentation::graphemes` (extended clusters): it
/// iterates the grapheme clusters of the string, a function of the
/// characters alone; a string of a single character is exactly one
/// cluster, since no boundary can fall inside one character.
#[verifier::external_body]
pub(crate) fn graphemes(s: &str) -> (r: Vec<String>)
    ensures
        r@.map_values(|g: String| g@) == graphemes_of(s@),
        s@.len() == 1 ==> r@.len() == 1,
{
    unicode_segmentation::UnicodeSegmentation::graphemes(s, true)
        .map(|g| g.to_string())
        .collect()
}

/// Relies on `regex::Regex::replace_all` with the fixed pattern
/// `('s|,|\.)`: it deletes every non-overlapping occurrence of `'s`, `,`
/// and `.`, scanning once from the left, which is exactly `strip_marks`.
#[verifier::external_body]
pub(crate) fn remove_marks(s: &str) -> (r: String)
    ensures
        r@ == strip_marks(s@),
{
    let pattern = regex::Regex::new(r"('s|,|\.)").unwrap();
    pattern.replace_all(s, "").into_owned()
}

} // verus!
