//! A glob pattern or file path, as project configuration accepts it: a value
//! with a `file://` or `glob://` protocol, or a bare path or pattern whose
//! protocol is told from whether it reads as a glob.

use vstd::prelude::*;
use schematic::ParseError;
use crate::text::{
    chars_of, contains_text, escapes_cleanly, find_text, glob_like, is_first_occurrence, is_glob_like, occurs_at,
    law_unescape_undoes_escape, replace_all, replace_text, standardize_separators, standardized, text_of_range,
};

verus! {

#[verifier::external_type_specification]
#[verifier::external_body]
pub struct ExParseError(ParseError);

/// `ParseError::new`: a parse error that carries `message`. What the error
/// holds is not stated here, as the type is opaque to the proofs.
#[verifier::external_body]
fn new_parse_error(message: &str) -> (error: ParseError) {
    ParseError::new(message)
}

/// A path to a file, relative to the project or the workspace.
#[derive(Clone, Debug, PartialEq, Eq)]
pub struct FilePath(pub String);

/// A glob pattern, relative to the project or the workspace.
#[derive(Clone, Debug, PartialEq, Eq)]
pub struct GlobPath(pub String);

impl FilePath {
    /// The path's text.
    pub fn as_str(&self) -> (text: &str)
        ensures
            text@ == self.0@,
    {
        self.0.as_str()
    }
}

impl GlobPath {
    /// The pattern's text.
    pub fn as_str(&self) -> (text: &str)
        ensures
            text@ == self.0@,
    {
        self.0.as_str()
    }
}

/// A glob pattern or file path.
#[derive(Clone, Debug, PartialEq, Eq)]
pub enum GlobOrPath {
    File(FilePath),
    Glob(GlobPath),
}

impl View for GlobOrPath {
    /// Whether the value is a glob, and its text.
    type V = (bool, Seq<char>);

    open spec fn view(&self) -> (bool, Seq<char>) {
        match self {
            GlobOrPath::File(path) => (false, path.0@),
            GlobOrPath::Glob(glob) => (true, glob.0@),
        }
    }
}

/// A value split at the first `://` into its scheme and what follows, and
/// that again at its first `?` into a path and a query. The query is kept as
/// text; a glob-or-path value reads only the scheme and the path.
pub struct Uri {
    pub scheme: String,
    pub path: String,
    pub query: String,
}

/// Where `://` first stands in a text that holds it.
pub open spec fn protocol_at(text: Seq<char>) -> int {
    choose|at: int| is_first_occurrence(text, "://"@, at)
}

/// The scheme of a text that holds `://`: what stands before the first `://`.
pub open spec fn scheme_of(text: Seq<char>) -> Seq<char> {
    text.subrange(0, protocol_at(text))
}

/// What follows the first `://` of a text that holds it.
pub open spec fn remainder_of(text: Seq<char>) -> Seq<char> {
    text.subrange(protocol_at(text) + 3, text.len() as int)
}

/// Where `?` first stands in a text that holds it.
pub open spec fn query_at(text: Seq<char>) -> int {
    choose|at: int| is_first_occurrence(text, "?"@, at)
}

/// The path of a text that holds `://`: what follows the first `://`, up to
/// the first `?` after it, if there is one.
pub open spec fn path_of(text: Seq<char>) -> Seq<char> {
    let rest = remainder_of(text);
    if contains_text(rest, "?"@) {
        rest.subrange(0, query_at(rest))
    } else {
        rest
    }
}

/// The query of a text that holds `://`: what follows the first `?` after
/// the first `://`; empty where there is none.
pub open spec fn query_of(text: Seq<char>) -> Seq<char> {
    let rest = remainder_of(text);
    if contains_text(rest, "?"@) {
        rest.subrange(query_at(rest) + 1, rest.len() as int)
    } else {
        Seq::empty()
    }
}

/// The text of the URI that a value stands for: the value with forward
/// slashes, given the `glob://` protocol where it reads as a glob (its `?`
/// escaped as `__QM__`, so that it is not read as the start of the URI's
/// query) and the `file://` protocol otherwise, unless it has a protocol of
/// its own. The escape is taken back when a glob is parsed.
pub open spec fn uri_text(value: Seq<char>) -> Seq<char> {
    let path = standardized(value);
    if contains_text(path, "://"@) {
        path
    } else if glob_like(path) {
        "glob://"@ + replace_all(path, "?"@, "__QM__"@)
    } else {
        "file://"@ + path
    }
}

/// What a value parses to, as (whether it is a glob, its text); none where its
/// protocol is neither `file` nor `glob`.
pub open spec fn parsed_input(value: Seq<char>) -> Option<(bool, Seq<char>)> {
    let text = uri_text(value);
    if scheme_of(text) == "file"@ {
        Some((false, path_of(text)))
    } else if scheme_of(text) == "glob"@ {
        Some((true, replace_all(path_of(text), "__QM__"@, "?"@)))
    } else {
        None
    }
}

proof fn lemma_first_occurrence_unique(text: Seq<char>, pattern: Seq<char>, at: int)
    requires
        is_first_occurrence(text, pattern, at),
    ensures
        (choose|other: int| is_first_occurrence(text, pattern, other)) == at,
{
    let other = choose|other: int| is_first_occurrence(text, pattern, other);
    assert(is_first_occurrence(text, pattern, other));
    assert(occurs_at(text, pattern, other));
    assert(occurs_at(text, pattern, at));
}

/// A protocol prefix followed by anything holds `://` first right after the
/// prefix's four letters.
proof fn lemma_prefixed_protocol(prefix: Seq<char>, rest: Seq<char>)
    requires
        prefix == "glob://"@ || prefix == "file://"@,
    ensures
        is_first_occurrence(prefix + rest, "://"@, 4),
        contains_text(prefix + rest, "://"@),
        scheme_of(prefix + rest) == prefix.subrange(0, 4),
        remainder_of(prefix + rest) == rest,
{
    reveal_strlit("glob://");
    reveal_strlit("file://");
    reveal_strlit("://");
    let text = prefix + rest;
    assert(text.subrange(4, 7) =~= "://"@);
    assert(occurs_at(text, "://"@, 4));
    assert forall|before: int| 0 <= before < 4 implies !#[trigger] occurs_at(text, "://"@, before) by {
        if occurs_at(text, "://"@, before) {
            assert(text.subrange(before, before + 3)[0] == ':');
        }
    }
    lemma_first_occurrence_unique(text, "://"@, 4);
    assert(text.subrange(0, 4) =~= prefix.subrange(0, 4));
    assert(text.subrange(7, text.len() as int) =~= rest);
}

impl Uri {
    /// Splits a value at its first `://` into a scheme and the rest, and the
    /// rest at its first `?` into a path and a query; none where the value
    /// holds no `://`.
    pub fn parse(value: &str) -> (uri: Option<Uri>)
        ensures
            match uri {
                Some(uri) => contains_text(value@, "://"@) && uri.scheme@ == scheme_of(value@)
                    && uri.path@ == path_of(value@) && uri.query@ == query_of(value@),
                None => !contains_text(value@, "://"@),
            },
    {
        let chars = chars_of(value);
        let length = chars.len();
        let protocol = chars_of("://");
        match find_text(&chars, &protocol) {
            Some(at) => {
                proof {
                    reveal_strlit("://");
                    lemma_first_occurrence_unique(value@, "://"@, at as int);
                }
                let scheme = text_of_range(&chars, 0, at);
                let rest = text_of_range(&chars, at + 3, length);
                let rest_chars = chars_of(rest.as_str());
                let rest_length = rest_chars.len();
                let question = chars_of("?");
                match find_text(&rest_chars, &question) {
                    Some(mark) => {
                        proof {
                            reveal_strlit("?");
                            lemma_first_occurrence_unique(rest@, "?"@, mark as int);
                        }
                        let path = text_of_range(&rest_chars, 0, mark);
                        let query = text_of_range(&rest_chars, mark + 1, rest_length);
                        Some(Uri { scheme, path, query })
                    },
                    None => {
                        let query = String::new();
                        assert(query@ =~= Seq::<char>::empty());
                        Some(Uri { scheme, path: rest, query })
                    },
                }
            },
            None => None,
        }
    }
}

/// The value's protocol is neither `file` nor `glob`.
#[derive(Clone, Debug)]
pub struct UnsupportedProtocol {
    pub scheme: String,
}

impl UnsupportedProtocol {
    /// The message that the error is reported with.
    pub fn message(&self) -> (message: String)
        ensures
            message@ == "glob or path protocol `"@ + self.scheme@
                + "://` is not supported, expected `file://` or `glob://`"@,
    {
        let mut message = String::new();
        message.append("glob or path protocol `");
        message.append(self.scheme.as_str());
        message.append("://` is not supported, expected `file://` or `glob://`");
        message
    }
}

impl GlobOrPath {
    /// The URI that a value stands for: always with forward slashes, and a bare
    /// path or pattern given the `glob://` or `file://` protocol as it reads as
    /// a glob or not.
    pub fn create_uri(value: &str) -> (uri: Result<Uri, ParseError>)
        ensures
            uri matches Ok(uri) && uri.scheme@ == scheme_of(uri_text(value@))
                && uri.path@ == path_of(uri_text(value@)) && uri.query@ == query_of(uri_text(value@)),
    {
        // Always use forward slashes
        let path = standardize_separators(value);
        let chars = chars_of(path.as_str());
        let protocol = chars_of("://");

        // Convert literal paths to a URI
        let text = if find_text(&chars, &protocol).is_none() {
            if is_glob_like(path.as_str()) {
                let question = chars_of("?");
                let escape = chars_of("__QM__");
                proof {
                    reveal_strlit("?");
                }
                let escaped = replace_text(&chars, &question, &escape);
                let mut text = String::new();
                text.append("glob://");
                text.append(text_of_range(&escaped, 0, escaped.len()).as_str());
                proof {
                    assert(escaped@.subrange(0, escaped@.len() as int) =~= escaped@);
                    lemma_prefixed_protocol("glob://"@, escaped@);
                }
                text
            } else {
                let mut text = String::new();
                text.append("file://");
                text.append(path.as_str());
                proof {
                    lemma_prefixed_protocol("file://"@, path@);
                }
                text
            }
        } else {
            path
        };
        assert(text@ == uri_text(value@));
        match Uri::parse(text.as_str()) {
            Some(uri) => Ok(uri),
            None => {
                assert(false);
                vstd::pervasive::unreached()
            },
        }
    }

    /// Parses a glob pattern or file path: the URI that the value stands for,
    /// its path taken as a file path under the `file` protocol and as a glob
    /// pattern (with `?` restored) under the `glob` protocol. Any other
    /// protocol is refused.
    pub fn from_value(value: &str) -> (parsed: Result<Self, UnsupportedProtocol>)
        ensures
            match parsed_input(value@) {
                Some(input) => parsed matches Ok(result) && result@ == input,
                None => parsed matches Err(error) && error.scheme@ == scheme_of(uri_text(value@)),
            },
    {
        // URI formats
        let uri = match Self::create_uri(value) {
            Ok(uri) => uri,
            Err(_) => {
                assert(false);
                return vstd::pervasive::unreached();
            },
        };
        if uri.scheme == "file".to_owned() {
            Ok(GlobOrPath::File(FilePath(uri.path)))
        } else if uri.scheme == "glob".to_owned() {
            let path = chars_of(uri.path.as_str());
            let escape = chars_of("__QM__");
            let question = chars_of("?");
            proof {
                reveal_strlit("__QM__");
            }
            let restored = replace_text(&path, &escape, &question);
            let glob = text_of_range(&restored, 0, restored.len());
            assert(restored@.subrange(0, restored@.len() as int) =~= restored@);
            Ok(GlobOrPath::Glob(GlobPath(glob)))
        } else {
            Err(UnsupportedProtocol { scheme: uri.scheme })
        }
    }

    /// Parses a glob pattern or file path, as [`GlobOrPath::from_value`] does,
    /// reporting a refused protocol as a parse error.
    pub fn parse(value: &str) -> (parsed: Result<Self, ParseError>)
        ensures
            match parsed_input(value@) {
                Some(input) => parsed matches Ok(result) && result@ == input,
                None => parsed is Err,
            },
    {
        <Self as std::str::FromStr>::from_str(value)
    }

    /// The text of the path or pattern.
    pub fn as_str(&self) -> (text: &str)
        ensures
            text@ == self@.1,
    {
        match self {
            GlobOrPath::File(value) => value.as_str(),
            GlobOrPath::Glob(value) => value.as_str(),
        }
    }

    /// Whether this is a glob pattern.
    pub fn is_glob(&self) -> (glob: bool)
        ensures
            glob == self@.0,
    {
        matches!(self, GlobOrPath::Glob(_))
    }
}

/// A bare path or pattern, one without a protocol, always parses: to a glob
/// pattern where it reads as a glob and to a file path otherwise. A file path
/// is the value with forward slashes; so is a glob pattern, where no
/// character of it but `?` begins what reads as an escaped `?`.
pub proof fn law_bare_value_parses_to_itself(value: Seq<char>)
    requires
        !contains_text(standardized(value), "://"@),
    ensures
        parsed_input(value) is Some,
        parsed_input(value).unwrap().0 == glob_like(standardized(value)),
        (glob_like(standardized(value)) ==> escapes_cleanly(standardized(value)))
            ==> parsed_input(value).unwrap().1 == standardized(value),
{
    reveal_strlit("glob://");
    reveal_strlit("file://");
    reveal_strlit("glob");
    reveal_strlit("file");
    let path = standardized(value);
    if glob_like(path) {
        lemma_prefixed_protocol("glob://"@, replace_all(path, "?"@, "__QM__"@));
        crate::text::lemma_escaped_has_no_question_mark(path);
        let escaped_path = replace_all(path, "?"@, "__QM__"@);
        assert forall|i: int| 0 <= i < escaped_path.len() implies escaped_path[i] != '?' by {
            assert(crate::text::escaped(path)[i] != '?');
        }
        crate::text::lemma_no_question_mark(escaped_path);
        assert("glob://"@.subrange(0, 4) =~= "glob"@);
        assert("glob"@ != "file"@) by {
            assert("glob"@[0] != "file"@[0]);
        }
        if escapes_cleanly(path) {
            law_unescape_undoes_escape(path);
        }
    } else {
        lemma_prefixed_protocol("file://"@, path);
        assert forall|i: int| 0 <= i < path.len() implies path[i] != '?' by {
            if path[i] == '?' {
                assert(crate::text::is_glob_char(path[i]));
            }
        }
        crate::text::lemma_no_question_mark(path);
        assert("file://"@.subrange(0, 4) =~= "file"@);
    }
}

/// A text that holds `://` is its scheme, `://` and the rest. The rest is the
/// path followed, where the rest holds a `?`, by that `?` and the query. The
/// path holds no `?`, and where the rest holds none the query is empty.
pub proof fn law_uri_parts(text: Seq<char>)
    requires
        contains_text(text, "://"@),
    ensures
        text == scheme_of(text) + "://"@ + remainder_of(text),
        !contains_text(path_of(text), "?"@),
        contains_text(remainder_of(text), "?"@) ==> remainder_of(text) == path_of(text) + "?"@ + query_of(text),
        !contains_text(remainder_of(text), "?"@) ==> path_of(text) == remainder_of(text) && query_of(text).len() == 0,
{
    reveal_strlit("://");
    reveal_strlit("?");
    let at = choose|at: int| #[trigger] occurs_at(text, "://"@, at);
    crate::text::lemma_first_occurrence_exists(text, "://"@, at);
    let p = protocol_at(text);
    assert(is_first_occurrence(text, "://"@, p));
    assert(text.subrange(p, p + 3) == "://"@);
    assert(text =~= text.subrange(0, p) + text.subrange(p, p + 3) + text.subrange(p + 3, text.len() as int));
    let rest = remainder_of(text);
    if contains_text(rest, "?"@) {
        let mark = choose|mark: int| #[trigger] occurs_at(rest, "?"@, mark);
        crate::text::lemma_first_occurrence_exists(rest, "?"@, mark);
        let q = query_at(rest);
        assert(is_first_occurrence(rest, "?"@, q));
        let path = path_of(text);
        assert(path == rest.subrange(0, q));
        assert forall|j: int| 0 <= j < path.len() implies path[j] != '?' by {
            if path[j] == '?' {
                assert(rest.subrange(j, j + 1) =~= "?"@);
                assert(occurs_at(rest, "?"@, j));
            }
        }
        crate::text::lemma_no_question_mark(path);
        assert(rest.subrange(q, q + 1) == "?"@);
        assert(rest =~= rest.subrange(0, q) + rest.subrange(q, q + 1) + rest.subrange(q + 1, rest.len() as int));
    }
}

/// A bare value, one without `://`, parses to a glob exactly when one of its
/// characters, wherever it stands, is `*`, `?`, `[`, `]`, `{`, `}` or `!`; to
/// a file path otherwise, whose text is the value with each backslash turned
/// into a forward slash and every other character kept in place.
pub proof fn law_bare_value_kind(value: Seq<char>)
    requires
        !contains_text(standardized(value), "://"@),
    ensures
        parsed_input(value) is Some,
        parsed_input(value).unwrap().0 <==> exists|i: int| #![trigger value[i]] 0 <= i < value.len() && (value[i] == '*' || value[i] == '?' || value[i] == '[' || value[i] == ']' || value[i] == '{' || value[i] == '}' || value[i] == '!'),
        !parsed_input(value).unwrap().0 ==> {
            &&& parsed_input(value).unwrap().1.len() == value.len()
            &&& forall|i: int| 0 <= i < value.len()
                ==> #[trigger] parsed_input(value).unwrap().1[i] == if value[i] == '\\' { '/' } else { value[i] }
        },
{
    law_bare_value_parses_to_itself(value);
    crate::text::law_standardize_changes_only_backslashes(value);
    let path = standardized(value);
    crate::text::law_glob_like_is_any_glob_character(path);
    if exists|i: int| #![trigger value[i]] 0 <= i < value.len() && (value[i] == '*' || value[i] == '?' || value[i] == '[' || value[i] == ']' || value[i] == '{' || value[i] == '}' || value[i] == '!') {
        let i = choose|i: int| #![trigger value[i]] 0 <= i < value.len() && (value[i] == '*' || value[i] == '?' || value[i] == '[' || value[i] == ']' || value[i] == '{' || value[i] == '}' || value[i] == '!');
        assert(path[i] == value[i]);
    }
    if exists|i: int| #![trigger path[i]] 0 <= i < path.len() && (path[i] == '*' || path[i] == '?' || path[i] == '[' || path[i] == ']' || path[i] == '{' || path[i] == '}' || path[i] == '!') {
        let i = choose|i: int| #![trigger path[i]] 0 <= i < path.len() && (path[i] == '*' || path[i] == '?' || path[i] == '[' || path[i] == ']' || path[i] == '{' || path[i] == '}' || path[i] == '!');
        assert(path[i] == value[i]);
    }
}

impl std::str::FromStr for GlobOrPath {
    type Err = ParseError;

    /// Parses a glob pattern or file path from its URI format, refusing any
    /// protocol but `file` and `glob`.
    fn from_str(value: &str) -> (parsed: Result<Self, Self::Err>)
        ensures
            match parsed_input(value@) {
                Some(input) => parsed matches Ok(result) && result@ == input,
                None => parsed is Err,
            },
    {
        match Self::from_value(value) {
            Ok(result) => Ok(result),
            Err(error) => Err(new_parse_error(error.message().as_str())),
        }
    }
}

} // verus!
