//! The boundary to `rattler_conda_types`: parsing of package names, versions
//! and match specifications, and the test whether a specification accepts a
//! package. Nothing in this file is proved of the outside code; every other
//! module is verified against the contracts stated here.

use vstd::prelude::*;

verus! {

/// A character that a package name may hold: an ASCII letter, a digit, `-`,
/// `_` or `.`.
pub open spec fn is_name_char(c: char) -> bool {
    ||| 'a' <= c <= 'z'
    ||| 'A' <= c <= 'Z'
    ||| '0' <= c <= '9'
    ||| c == '-'
    ||| c == '_'
    ||| c == '.'
}

/// The character with an ASCII capital letter turned into the small one.
pub open spec fn lowered(c: char) -> char {
    if 'A' <= c <= 'Z' {
        ((c as u8) + 32) as char
    } else {
        c
    }
}

/// The normalized form of a package name: the text with its ASCII capital
/// letters turned into small ones. `None` where the text holds a character
/// that a package name may not hold. This is what `PackageName::try_from`
/// followed by `as_normalized` gives.
pub open spec fn normalized_package_name(text: Seq<char>) -> Option<Seq<char>> {
    if forall|i: int| 0 <= i < text.len() ==> is_name_char(#[trigger] text[i]) {
        Some(Seq::new(text.len(), |i: int| lowered(text[i])))
    } else {
        None
    }
}

/// Whether the text is a version. Stands for the success of
/// `Version::from_str`.
pub uninterp spec fn version_parses(text: Seq<char>) -> bool;

/// The normalized package name that a match specification asks for, or
/// `None` where the text is no match specification. Stands for
/// `MatchSpec::from_str` followed by `as_normalized` on the name.
pub uninterp spec fn match_spec_name(text: Seq<char>) -> Option<Seq<char>>;

/// Whether the match specification `text` accepts a package with the given
/// name, version, build string and build number and no further properties.
/// Stands for `MatchSpec::matches`.
pub uninterp spec fn spec_accepts(
    text: Seq<char>,
    name: Seq<char>,
    version: Seq<char>,
    build: Seq<char>,
    build_number: u64,
) -> bool;

/// `i` is where the comment of `text` starts: the position of the first `#`,
/// or the length of the text if it holds none.
pub open spec fn is_comment_start(text: Seq<char>, i: int) -> bool {
    &&& 0 <= i <= text.len()
    &&& i < text.len() ==> text[i] == '#'
    &&& forall|j: int| 0 <= j < i ==> text[j] != '#'
}

/// The file extension of a package archive in the newer format.
pub open spec fn conda_extension() -> Seq<char> {
    seq!['.', 'c', 'o', 'n', 'd', 'a']
}

/// The file extension of a package archive in the older format.
pub open spec fn tar_bz2_extension() -> Seq<char> {
    seq!['.', 't', 'a', 'r', '.', 'b', 'z', '2']
}

/// `text` ends with `suffix`.
pub open spec fn ends_with(text: Seq<char>, suffix: Seq<char>) -> bool {
    suffix.len() <= text.len() && text.subrange(text.len() - suffix.len(), text.len() as int)
        == suffix
}

/// The text, up to its comment, names a package archive rather than a
/// specification. The outside parser does not return on such a text.
pub open spec fn names_package_file(text: Seq<char>) -> bool {
    exists|i: int| #[trigger]
        is_comment_start(text, i) && (ends_with(text.subrange(0, i), conda_extension())
            || ends_with(text.subrange(0, i), tar_bz2_extension()))
}

/// The characters of `text` from position `i` on, `n` of them, are ASCII
/// digits.
pub open spec fn digit_run_at(text: Seq<char>, i: int, n: int) -> bool {
    &&& 0 <= i
    &&& i + n <= text.len()
    &&& forall|j: int| i <= j < i + n ==> '0' <= #[trigger] text[j] <= '9'
}

/// The longest run of digits that the library hands to the outside parser
/// is one shorter than this: a number of fewer digits fits into 64 bits.
pub open spec fn digit_run_limit() -> int {
    20
}

/// The text holds a run of ASCII digits too long to be sure that the number
/// fits into 64 bits. The outside parser does not return on a build number
/// that does not fit.
pub open spec fn has_long_digit_run(text: Seq<char>) -> bool {
    exists|i: int| #[trigger] digit_run_at(text, i, digit_run_limit())
}

/// The number of opening parentheses among the first `n` characters.
pub open spec fn count_groups(text: Seq<char>, n: int) -> int
    decreases n,
{
    if n <= 0 {
        0
    } else {
        count_groups(text, n - 1) + (if text[n - 1] == '(' {
            1int
        } else {
            0int
        })
    }
}

/// The most opening parentheses that the library hands to the outside
/// parser, which goes one call deeper for each.
pub open spec fn group_limit() -> int {
    16
}

/// The text holds more opening parentheses than the library hands on.
pub open spec fn has_deep_groups(text: Seq<char>) -> bool {
    count_groups(text, text.len() as int) > group_limit()
}

/// A text that can be handed to the outside parser: it names no package
/// archive, holds no overlong run of digits and not too many groups.
pub open spec fn parser_safe(text: Seq<char>) -> bool {
    &&& !names_package_file(text)
    &&& !has_long_digit_run(text)
    &&& !has_deep_groups(text)
}

/// A text that can be handed to the outside parser and that it accepts.
pub open spec fn match_spec_parses(text: Seq<char>) -> bool {
    parser_safe(text) && match_spec_name(text) is Some
}

/// Calls `PackageName::try_from` and returns the normalized name. The
/// contract claims that the call fails exactly on a text that holds a
/// character other than an ASCII letter, a digit, `-`, `_` or `.`, and that
/// the normalized name is the text with its capital letters made small.
#[verifier::external_body]
pub(crate) fn normalize_package_name(text: &str) -> (name: Option<String>)
    ensures
        name is Some == normalized_package_name(text@) is Some,
        name matches Some(n) ==> Some(n@) == normalized_package_name(text@),
{
    match rattler_conda_types::PackageName::try_from(text) {
        Ok(name) => Some(name.as_normalized().to_string()),
        Err(_) => None,
    }
}

/// Calls `Version::from_str` and says whether it succeeded.
#[verifier::external_body]
pub(crate) fn parse_version(text: &str) -> (ok: bool)
    ensures
        ok == version_parses(text@),
{
    text.parse::<rattler_conda_types::Version>().is_ok()
}

/// Calls `MatchSpec::from_str` and returns the normalized name of the
/// specification. The parser does not return on the name of a package
/// archive nor on a build number that does not fit into 64 bits, and it goes
/// one call deeper for each group; such texts are left out. On some texts
/// that it rejects the parser writes a line to standard error.
#[verifier::external_body]
pub(crate) fn parse_match_spec(text: &str) -> (name: Option<String>)
    requires
        parser_safe(text@),
    ensures
        name is Some == match_spec_name(text@) is Some,
        name matches Some(n) ==> Some(n@) == match_spec_name(text@),
{
    match text.parse::<rattler_conda_types::MatchSpec>() {
        Ok(spec) => match spec.name {
            Some(name) => Some(name.as_normalized().to_string()),
            None => None,
        },
        Err(_) => None,
    }
}

/// Calls `MatchSpec::matches` on a record made by `PackageRecord::new` from
/// the name, the version and the build string, with the build number set.
/// Both texts must parse: the contract is stated for those only.
#[verifier::external_body]
pub(crate) fn match_spec_accepts(
    text: &str,
    name: &str,
    version: &str,
    build: &str,
    build_number: u64,
) -> (accepted: bool)
    requires
        match_spec_parses(text@),
        version_parses(version@),
    ensures
        accepted == spec_accepts(text@, name@, version@, build@, build_number),
{
    let spec = text.parse::<rattler_conda_types::MatchSpec>().unwrap();
    let version = version.parse::<rattler_conda_types::Version>().unwrap();
    let name = rattler_conda_types::PackageName::new_unchecked(name);
    let mut record = rattler_conda_types::PackageRecord::new(name, version, build.to_string());
    record.build_number = build_number;
    spec.matches(&record)
}

} // verus!
