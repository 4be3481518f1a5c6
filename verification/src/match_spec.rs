//! Match specifications: the dependency expressions that packages declare
//! and that users request.

use vstd::prelude::*;
use crate::conda_types::{
    conda_extension, count_groups, digit_run_at, digit_run_limit, ends_with, group_limit,
    has_deep_groups, has_long_digit_run, is_comment_start, match_spec_name, match_spec_parses,
    names_package_file, parse_match_spec, parser_safe, tar_bz2_extension,
};

verus! {

/// A match specification as mathematical values.
pub struct MatchSpecView {
    /// The normalized name of the package asked for.
    pub name: Seq<char>,
    /// The specification as it was written.
    pub text: Seq<char>,
}

/// A match specification that has been checked: its text parses, and the
/// name is the one that the text asks for.
#[derive(Debug)]
pub struct MatchSpec {
    name: String,
    text: String,
}

/// The text that was rejected as a match specification.
#[derive(Debug)]
pub struct ParseMatchSpecError {
    /// The offending text.
    pub text: String,
}

impl View for MatchSpec {
    type V = MatchSpecView;

    closed spec fn view(&self) -> MatchSpecView {
        MatchSpecView { name: self.name@, text: self.text@ }
    }
}

/// The characters of a string.
pub fn chars_of(text: &str) -> (chars: Vec<char>)
    ensures
        chars@ == text@,
{
    let n = text.unicode_len();
    let mut chars: Vec<char> = Vec::new();
    let mut i: usize = 0;
    while i < n
        invariant
            0 <= i <= n,
            n == text@.len(),
            chars@ == text@.subrange(0, i as int),
        decreases n - i,
    {
        let c = text.get_char(i);
        chars.push(c);
        assert(chars@ =~= text@.subrange(0, i + 1));
        i += 1;
    }
    assert(chars@ =~= text@);
    chars
}

/// Whether the first `end` characters end with `.conda`.
fn ends_with_conda(chars: &Vec<char>, end: usize) -> (b: bool)
    requires
        end <= chars@.len(),
    ensures
        b == ends_with(chars@.subrange(0, end as int), conda_extension()),
{
    if end < 6 {
        return false;
    }
    let b = chars[end - 6] == '.' && chars[end - 5] == 'c' && chars[end - 4] == 'o' && chars[end
        - 3] == 'n' && chars[end - 2] == 'd' && chars[end - 1] == 'a';
    proof {
        let head = chars@.subrange(0, end as int);
        let tail = head.subrange(head.len() - 6, head.len() as int);
        if b {
            assert(tail =~= conda_extension());
        } else {
            if tail == conda_extension() {
                assert(tail[0] == '.' && tail[1] == 'c' && tail[2] == 'o' && tail[3] == 'n'
                    && tail[4] == 'd' && tail[5] == 'a');
            }
        }
    }
    b
}

/// Whether the first `end` characters end with `.tar.bz2`.
fn ends_with_tar_bz2(chars: &Vec<char>, end: usize) -> (b: bool)
    requires
        end <= chars@.len(),
    ensures
        b == ends_with(chars@.subrange(0, end as int), tar_bz2_extension()),
{
    if end < 8 {
        return false;
    }
    let b = chars[end - 8] == '.' && chars[end - 7] == 't' && chars[end - 6] == 'a' && chars[end
        - 5] == 'r' && chars[end - 4] == '.' && chars[end - 3] == 'b' && chars[end - 2] == 'z'
        && chars[end - 1] == '2';
    proof {
        let head = chars@.subrange(0, end as int);
        let tail = head.subrange(head.len() - 8, head.len() as int);
        if b {
            assert(tail =~= tar_bz2_extension());
        } else {
            if tail == tar_bz2_extension() {
                assert(tail[0] == '.' && tail[1] == 't' && tail[2] == 'a' && tail[3] == 'r'
                    && tail[4] == '.' && tail[5] == 'b' && tail[6] == 'z' && tail[7] == '2');
            }
        }
    }
    b
}

/// Whether the first characters, up to the comment, name a package archive.
fn names_archive(chars: &Vec<char>) -> (b: bool)
    ensures
        b == names_package_file(chars@),
{
    let mut end: usize = 0;
    while end < chars.len() && chars[end] != '#'
        invariant
            0 <= end <= chars@.len(),
            forall|j: int| 0 <= j < end ==> chars@[j] != '#',
        decreases chars@.len() - end,
    {
        end += 1;
    }
    assert(is_comment_start(chars@, end as int));
    let b = ends_with_conda(chars, end) || ends_with_tar_bz2(chars, end);
    proof {
        assert forall|i: int| is_comment_start(chars@, i) implies i == end by {
            if i < end {
                assert(chars@[i] != '#');
            } else if i > end {
                assert(chars@[end as int] == '#');
            }
        }
    }
    b
}

/// Whether the text, up to its comment, names a package archive: it ends
/// with `.conda` or `.tar.bz2`. Such a text is no match specification.
pub fn is_package_file(text: &str) -> (b: bool)
    ensures
        b == names_package_file(text@),
{
    let chars = chars_of(text);
    names_archive(&chars)
}

/// Whether the characters hold a run of twenty ASCII digits.
fn holds_long_digit_run(chars: &Vec<char>) -> (b: bool)
    ensures
        b == has_long_digit_run(chars@),
{
    let mut run: usize = 0;
    let mut i: usize = 0;
    while i < chars.len()
        invariant
            0 <= i <= chars@.len(),
            run <= i,
            run < 20,
            digit_run_at(chars@, i - run, run as int),
            run < i ==> !('0' <= chars@[i - run - 1] <= '9'),
            forall|s: int| s + 20 <= i ==> !#[trigger] digit_run_at(chars@, s, digit_run_limit()),
        decreases chars@.len() - i,
    {
        let c = chars[i];
        if '0' <= c && c <= '9' {
            run += 1;
            if run == 20 {
                assert(digit_run_at(chars@, i + 1 - 20, digit_run_limit()));
                return true;
            }
            proof {
                assert forall|s: int| s + 20 <= i + 1 implies !#[trigger] digit_run_at(
                    chars@,
                    s,
                    digit_run_limit(),
                ) by {
                    if s + 20 == i + 1 && s >= 0 {
                        let stop = i + 1 - run - 1;
                        assert(s <= stop < s + 20);
                        assert(!('0' <= chars@[stop] <= '9'));
                    }
                }
            }
        } else {
            run = 0;
            proof {
                assert forall|s: int| s + 20 <= i + 1 implies !#[trigger] digit_run_at(
                    chars@,
                    s,
                    digit_run_limit(),
                ) by {
                    if s + 20 == i + 1 && s >= 0 {
                        assert(s <= i < s + 20);
                    }
                }
            }
        }
        i += 1;
    }
    proof {
        assert forall|s: int| !#[trigger] digit_run_at(chars@, s, digit_run_limit()) by {}
    }
    false
}

/// Whether the characters hold more than sixteen opening parentheses.
fn holds_deep_groups(chars: &Vec<char>) -> (b: bool)
    ensures
        b == has_deep_groups(chars@),
{
    let mut count: usize = 0;
    let mut i: usize = 0;
    while i < chars.len()
        invariant
            0 <= i <= chars@.len(),
            count == count_groups(chars@, i as int),
            count <= i,
        decreases chars@.len() - i,
    {
        if chars[i] == '(' {
            count += 1;
        }
        i += 1;
    }
    count > 16
}

/// Whether the text can be handed to the outside parser: it names no
/// package archive, holds no run of twenty digits and at most sixteen
/// opening parentheses.
pub fn is_parser_safe(text: &str) -> (b: bool)
    ensures
        b == parser_safe(text@),
{
    let chars = chars_of(text);
    !names_archive(&chars) && !holds_long_digit_run(&chars) && !holds_deep_groups(&chars)
}

/// Parses a match specification with the outside parser and returns the
/// normalized name it asks for, or `None` where the text cannot be handed to
/// the parser or does not parse.
pub fn match_spec_package_name(text: &str) -> (name: Option<String>)
    ensures
        name is Some == match_spec_parses(text@),
        name matches Some(n) ==> Some(n@) == match_spec_name(text@),
{
    if is_parser_safe(text) {
        parse_match_spec(text)
    } else {
        None
    }
}

impl MatchSpec {
    #[verifier::type_invariant]
    spec fn checked(&self) -> bool {
        match_spec_parses(self.text@) && match_spec_name(self.text@) == Some(self.name@)
    }

    /// Checks `text` and keeps it with the name it asks for. The text is
    /// rejected where it cannot be handed to the outside parser (it names a
    /// package archive, or holds a run of twenty digits or more than sixteen
    /// opening parentheses) or where the parser rejects it.
    pub fn from_str(text: &str) -> (r: Result<MatchSpec, ParseMatchSpecError>)
        ensures
            r is Ok == match_spec_parses(text@),
            r matches Ok(spec) ==> spec@.text == text@ && Some(spec@.name) == match_spec_name(
                text@,
            ),
            r matches Err(e) ==> e.text@ == text@,
    {
        match match_spec_package_name(text) {
            Some(name) => Ok(MatchSpec { name, text: text.to_owned() }),
            None => Err(ParseMatchSpecError { text: text.to_owned() }),
        }
    }

    /// The specification as it was written.
    pub fn as_str(&self) -> (text: &str)
        ensures
            text@ == self@.text,
            match_spec_parses(text@),
            match_spec_name(text@) == Some(self@.name),
    {
        proof {
            use_type_invariant(self);
        }
        self.text.as_str()
    }

    /// The normalized name of the package asked for.
    pub fn package_name(&self) -> (name: &str)
        ensures
            name@ == self@.name,
    {
        self.name.as_str()
    }
}

} // verus!
