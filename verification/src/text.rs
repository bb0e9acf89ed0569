//! Text as sequences of characters: finding and replacing one text in another,
//! and the path and glob conventions of the workspace.

use vstd::prelude::*;

verus! {

/// `pattern` stands in `text` at position `at`.
pub open spec fn occurs_at(text: Seq<char>, pattern: Seq<char>, at: int) -> bool {
    &&& 0 <= at
    &&& at + pattern.len() <= text.len()
    &&& text.subrange(at, at + pattern.len()) == pattern
}

/// `pattern` stands somewhere in `text`.
pub open spec fn contains_text(text: Seq<char>, pattern: Seq<char>) -> bool {
    exists|at: int| #[trigger] occurs_at(text, pattern, at)
}

/// `at` is where `pattern` first stands in `text`.
pub open spec fn is_first_occurrence(text: Seq<char>, pattern: Seq<char>, at: int) -> bool {
    &&& occurs_at(text, pattern, at)
    &&& forall|before: int| 0 <= before < at ==> !#[trigger] occurs_at(text, pattern, before)
}

/// `text` with each occurrence of a non-empty `pattern` replaced by `with`,
/// the occurrences taken from the left and not overlapping.
pub open spec fn replace_all(text: Seq<char>, pattern: Seq<char>, with: Seq<char>) -> Seq<char>
    decreases text.len(),
{
    if pattern.len() == 0 || text.len() < pattern.len() {
        text
    } else if text.subrange(0, pattern.len() as int) == pattern {
        with + replace_all(text.subrange(pattern.len() as int, text.len() as int), pattern, with)
    } else {
        seq![text[0]] + replace_all(text.subrange(1, text.len() as int), pattern, with)
    }
}

/// A path with each backslash turned into a forward slash.
pub open spec fn standardized(path: Seq<char>) -> Seq<char> {
    path.map_values(|c: char| if c == '\\' { '/' } else { c })
}

/// The characters that make a value read as a glob pattern.
pub open spec fn is_glob_char(c: char) -> bool {
    c == '*' || c == '?' || c == '[' || c == ']' || c == '{' || c == '}' || c == '!'
}

/// A value reads as a glob pattern where it holds one of the glob characters.
pub open spec fn glob_like(value: Seq<char>) -> bool {
    exists|i: int| 0 <= i < value.len() && is_glob_char(#[trigger] value[i])
}

/// `String::push`: afterwards the text ends with `c`.
#[verifier::external_body]
fn push_char(text: &mut String, c: char)
    ensures
        final(text)@ == old(text)@.push(c),
{
    text.push(c);
}

/// The characters of a text.
pub fn chars_of(text: &str) -> (chars: Vec<char>)
    ensures
        chars@ == text@,
{
    let mut chars: Vec<char> = Vec::new();
    for c in it: text.chars()
        invariant
            it.seq() == text@,
            chars@ == text@.take(it.index()),
    {
        chars.push(c);
        assert(text@.take(it.index() + 1) =~= text@.take(it.index()).push(c));
    }
    assert(chars@ =~= text@);
    chars
}

/// The text of the characters `from..to`.
pub fn text_of_range(chars: &Vec<char>, from: usize, to: usize) -> (text: String)
    requires
        from <= to <= chars@.len(),
    ensures
        text@ == chars@.subrange(from as int, to as int),
{
    let mut text = String::new();
    let mut i = from;
    while i < to
        invariant
            from <= i <= to <= chars@.len(),
            text@ == chars@.subrange(from as int, i as int),
        decreases to - i,
    {
        push_char(&mut text, chars[i]);
        assert(chars@.subrange(from as int, i + 1) =~= chars@.subrange(from as int, i as int).push(chars@[i as int]));
        i = i + 1;
    }
    text
}

/// Whether `pattern` stands in `text` at `at`.
pub fn matches_at(text: &Vec<char>, pattern: &Vec<char>, at: usize) -> (found: bool)
    ensures
        found == occurs_at(text@, pattern@, at as int),
{
    if pattern.len() > text.len() || at > text.len() - pattern.len() {
        return false;
    }
    let mut k: usize = 0;
    while k < pattern.len()
        invariant
            k <= pattern@.len(),
            at + pattern@.len() <= text@.len(),
            text@.len() <= usize::MAX,
            forall|j: int| 0 <= j < k ==> text@[at + j] == pattern@[j],
        decreases pattern@.len() - k,
    {
        let index: usize = at + k;
        if text[index] != pattern[k] {
            assert(text@.subrange(at as int, at + pattern@.len())[k as int] != pattern@[k as int]);
            return false;
        }
        k = k + 1;
    }
    assert(text@.subrange(at as int, at + pattern@.len()) =~= pattern@);
    true
}

/// Where `pattern` first stands in `text`, if it does.
pub fn find_text(text: &Vec<char>, pattern: &Vec<char>) -> (found: Option<usize>)
    ensures
        match found {
            Some(at) => is_first_occurrence(text@, pattern@, at as int),
            None => !contains_text(text@, pattern@),
        },
{
    let mut at: usize = 0;
    while at < text.len()
        invariant
            at <= text@.len(),
            forall|before: int| 0 <= before < at ==> !#[trigger] occurs_at(text@, pattern@, before),
        decreases text.len() - at,
    {
        if matches_at(text, pattern, at) {
            return Some(at);
        }
        at = at + 1;
    }
    if matches_at(text, pattern, at) {
        return Some(at);
    }
    assert forall|i: int| !#[trigger] occurs_at(text@, pattern@, i) by {
        if 0 <= i <= at {
        }
    }
    None
}

proof fn lemma_replace_step(text: Seq<char>, pattern: Seq<char>, with: Seq<char>, i: int)
    requires
        pattern.len() > 0,
        0 <= i <= text.len(),
    ensures
        i + pattern.len() <= text.len() && occurs_at(text, pattern, i) ==> replace_all(text.subrange(i, text.len() as int), pattern, with)
            == with + replace_all(text.subrange(i + pattern.len(), text.len() as int), pattern, with),
        i < text.len() && !occurs_at(text, pattern, i) ==> replace_all(text.subrange(i, text.len() as int), pattern, with)
            == seq![text[i]] + replace_all(text.subrange(i + 1, text.len() as int), pattern, with),
{
    let rest = text.subrange(i, text.len() as int);
    if i + pattern.len() <= text.len() {
        assert(rest.subrange(0, pattern.len() as int) =~= text.subrange(i, i + pattern.len()));
        assert(rest.subrange(pattern.len() as int, rest.len() as int) =~= text.subrange(i + pattern.len(), text.len() as int));
    }
    if i < text.len() {
        assert(rest.subrange(1, rest.len() as int) =~= text.subrange(i + 1, text.len() as int));
        assert(rest[0] == text[i]);
    }
}

/// `text` with each occurrence of `pattern` replaced by `with`.
pub fn replace_text(text: &Vec<char>, pattern: &Vec<char>, with: &Vec<char>) -> (replaced: Vec<char>)
    requires
        pattern@.len() > 0,
    ensures
        replaced@ == replace_all(text@, pattern@, with@),
{
    let mut replaced: Vec<char> = Vec::new();
    let mut i: usize = 0;
    assert(text@.subrange(0, text@.len() as int) =~= text@);
    while i < text.len()
        invariant
            pattern@.len() > 0,
            i <= text@.len(),
            replace_all(text@, pattern@, with@) == replaced@ + replace_all(text@.subrange(i as int, text@.len() as int), pattern@, with@),
        decreases text.len() - i,
    {
        proof {
            lemma_replace_step(text@, pattern@, with@, i as int);
        }
        if matches_at(text, pattern, i) {
            let ghost before = replaced@;
            for k in 0..with.len()
                invariant
                    replaced@ == before + with@.take(k as int),
            {
                replaced.push(with[k]);
                assert(with@.take(k + 1) =~= with@.take(k as int).push(with@[k as int]));
            }
            assert(with@.take(with@.len() as int) =~= with@);
            assert(before + (with@ + replace_all(text@.subrange(i + pattern@.len(), text@.len() as int), pattern@, with@))
                =~= replaced@ + replace_all(text@.subrange(i + pattern@.len(), text@.len() as int), pattern@, with@));
            i = i + pattern.len();
        } else {
            let ghost before = replaced@;
            replaced.push(text[i]);
            assert(before + (seq![text@[i as int]] + replace_all(text@.subrange(i + 1, text@.len() as int), pattern@, with@))
                =~= replaced@ + replace_all(text@.subrange(i + 1, text@.len() as int), pattern@, with@));
            i = i + 1;
        }
    }
    assert(text@.subrange(i as int, text@.len() as int) =~= Seq::<char>::empty());
    assert(replace_all(Seq::<char>::empty(), pattern@, with@) == Seq::<char>::empty());
    assert(replaced@ + Seq::<char>::empty() =~= replaced@);
    replaced
}

/// The path with each backslash turned into a forward slash, so that paths
/// always use forward slashes.
pub fn standardize_separators(path: &str) -> (standard: String)
    ensures
        standard@ == standardized(path@),
        standard@.len() == path@.len(),
        forall|i: int| 0 <= i < path@.len() ==> #[trigger] standard@[i] == if path@[i] == '\\' { '/' } else { path@[i] },
{
    let chars = chars_of(path);
    let mut standard = String::new();
    for i in 0..chars.len()
        invariant
            chars@ == path@,
            standard@ == standardized(path@).take(i as int),
    {
        let c = if chars[i] == '\\' { '/' } else { chars[i] };
        push_char(&mut standard, c);
        assert(standardized(path@).take(i + 1) =~= standardized(path@).take(i as int).push(c));
    }
    assert(standardized(path@).take(chars.len() as int) =~= standardized(path@));
    proof {
        law_standardize_changes_only_backslashes(path@);
    }
    standard
}

/// Whether the value reads as a glob pattern rather than a plain path.
pub fn is_glob_like(value: &str) -> (glob: bool)
    ensures
        glob == glob_like(value@),
        glob == exists|i: int| #![trigger value@[i]] 0 <= i < value@.len() && (value@[i] == '*' || value@[i] == '?' || value@[i] == '[' || value@[i] == ']' || value@[i] == '{' || value@[i] == '}' || value@[i] == '!'),
{
    proof {
        law_glob_like_is_any_glob_character(value@);
    }
    let chars = chars_of(value);
    for i in 0..chars.len()
        invariant
            chars@ == value@,
            forall|j: int| 0 <= j < i ==> !is_glob_char(#[trigger] value@[j]),
    {
        let c = chars[i];
        if c == '*' || c == '?' || c == '[' || c == ']' || c == '{' || c == '}' || c == '!' {
            assert(is_glob_char(value@[i as int]));
            return true;
        }
    }
    false
}

/// A glob with each `?` escaped as `__QM__`.
pub open spec fn escaped(glob: Seq<char>) -> Seq<char> {
    replace_all(glob, "?"@, "__QM__"@)
}

/// A text with each `__QM__` taken back to `?`.
pub open spec fn unescaped(text: Seq<char>) -> Seq<char> {
    replace_all(text, "__QM__"@, "?"@)
}

/// No character but `?` begins something that, once the glob is escaped,
/// reads as an escaped `?`.
pub open spec fn escapes_cleanly(glob: Seq<char>) -> bool {
    forall|i: int| 0 <= i < glob.len() && glob[i] != '?'
        ==> !#[trigger] occurs_at(escaped(glob.subrange(i, glob.len() as int)), "__QM__"@, 0)
}

/// Standardized paths hold forward slashes only, and standardizing a second
/// time changes nothing.
pub proof fn law_standardized_paths_use_forward_slashes(path: Seq<char>)
    ensures
        !standardized(path).contains('\\'),
        standardized(standardized(path)) == standardized(path),
{
    assert(standardized(standardized(path)) =~= standardized(path));
}

proof fn lemma_escaped_front(glob: Seq<char>)
    requires
        glob.len() > 0,
    ensures
        escaped(glob) == (if glob[0] == '?' { "__QM__"@ } else { seq![glob[0]] })
            + escaped(glob.subrange(1, glob.len() as int)),
{
    reveal_strlit("?");
    assert("?"@.len() == 1);
    if glob[0] == '?' {
        assert(glob.subrange(0, 1) =~= "?"@);
    } else {
        assert(glob.subrange(0, 1)[0] == glob[0]);
        assert(glob.subrange(0, 1) != "?"@);
    }
}

proof fn lemma_unescaped_after_escape(rest: Seq<char>)
    ensures
        unescaped("__QM__"@ + rest) == "?"@ + unescaped(rest),
{
    reveal_strlit("__QM__");
    let text = "__QM__"@ + rest;
    assert(text.subrange(0, 6) =~= "__QM__"@);
    assert(text.subrange(6, text.len() as int) =~= rest);
}

proof fn lemma_unescaped_after_char(c: char, rest: Seq<char>)
    requires
        !occurs_at(seq![c] + rest, "__QM__"@, 0),
    ensures
        (seq![c] + rest).len() < 6 ==> unescaped(seq![c] + rest) == seq![c] + rest,
        (seq![c] + rest).len() >= 6 ==> unescaped(seq![c] + rest) == seq![c] + unescaped(rest),
{
    reveal_strlit("__QM__");
    let text = seq![c] + rest;
    assert(text.subrange(1, text.len() as int) =~= rest);
}

/// Escaping the `?` of a glob and taking the escapes back gives the glob
/// again, where no other character begins what reads as an escape.
pub proof fn law_unescape_undoes_escape(glob: Seq<char>)
    requires
        escapes_cleanly(glob),
    ensures
        unescaped(escaped(glob)) == glob,
    decreases glob.len(),
{
    reveal_strlit("__QM__");
    reveal_strlit("?");
    if glob.len() == 0 {
        assert(escaped(glob) == glob);
        assert(unescaped(glob) == glob);
    } else {
        let rest = glob.subrange(1, glob.len() as int);
        assert forall|i: int| 0 <= i < rest.len() && rest[i] != '?'
            implies !#[trigger] occurs_at(escaped(rest.subrange(i, rest.len() as int)), "__QM__"@, 0) by {
            assert(rest.subrange(i, rest.len() as int) =~= glob.subrange(i + 1, glob.len() as int));
            assert(glob[i + 1] == rest[i]);
        }
        law_unescape_undoes_escape(rest);
        lemma_escaped_front(glob);
        if glob[0] == '?' {
            lemma_unescaped_after_escape(escaped(rest));
            assert(glob =~= "?"@ + rest);
        } else {
            assert(glob.subrange(0, glob.len() as int) =~= glob);
            assert(!occurs_at(escaped(glob), "__QM__"@, 0));
            lemma_unescaped_after_char(glob[0], escaped(rest));
            if escaped(glob).len() < 6 {
                assert(escaped(rest).len() < 6);
                assert(unescaped(escaped(rest)) == escaped(rest));
            }
            assert(glob =~= seq![glob[0]] + rest);
        }
    }
}

/// A text in which no character is `?` holds no `?`.
pub proof fn lemma_no_question_mark(text: Seq<char>)
    requires
        forall|i: int| 0 <= i < text.len() ==> text[i] != '?',
    ensures
        !contains_text(text, "?"@),
{
    reveal_strlit("?");
    assert forall|at: int| !#[trigger] occurs_at(text, "?"@, at) by {
        if occurs_at(text, "?"@, at) {
            assert(text.subrange(at, at + 1)[0] == text[at]);
        }
    }
}

/// An escaped glob holds no `?`.
pub proof fn lemma_escaped_has_no_question_mark(glob: Seq<char>)
    ensures
        forall|i: int| 0 <= i < escaped(glob).len() ==> escaped(glob)[i] != '?',
    decreases glob.len(),
{
    reveal_strlit("__QM__");
    reveal_strlit("?");
    if glob.len() == 0 {
        assert(escaped(glob) == glob);
    } else {
        let rest = glob.subrange(1, glob.len() as int);
        lemma_escaped_has_no_question_mark(rest);
        lemma_escaped_front(glob);
        let head = if glob[0] == '?' { "__QM__"@ } else { seq![glob[0]] };
        assert forall|i: int| 0 <= i < escaped(glob).len() implies escaped(glob)[i] != '?' by {
            if i < head.len() {
                assert(escaped(glob)[i] == head[i]);
            } else {
                assert(escaped(glob)[i] == escaped(rest)[i - head.len()]);
            }
        }
    }
}

/// A value reads as a glob exactly when one of its characters, wherever it
/// stands, is `*`, `?`, `[`, `]`, `{`, `}` or `!`.
pub proof fn law_glob_like_is_any_glob_character(value: Seq<char>)
    ensures
        glob_like(value) <==> exists|i: int| #![trigger value[i]] 0 <= i < value.len() && (value[i] == '*' || value[i] == '?' || value[i] == '[' || value[i] == ']' || value[i] == '{' || value[i] == '}' || value[i] == '!'),
{
    if glob_like(value) {
        let i = choose|i: int| 0 <= i < value.len() && is_glob_char(#[trigger] value[i]);
    }
    if exists|i: int| #![trigger value[i]] 0 <= i < value.len() && (value[i] == '*' || value[i] == '?' || value[i] == '[' || value[i] == ']' || value[i] == '{' || value[i] == '}' || value[i] == '!') {
        let i = choose|i: int| #![trigger value[i]] 0 <= i < value.len() && (value[i] == '*' || value[i] == '?' || value[i] == '[' || value[i] == ']' || value[i] == '{' || value[i] == '}' || value[i] == '!');
        assert(is_glob_char(value[i]));
    }
}

/// Standardizing a path turns each backslash into a forward slash and keeps
/// every other character as it is, in place.
pub proof fn law_standardize_changes_only_backslashes(path: Seq<char>)
    ensures
        standardized(path).len() == path.len(),
        forall|i: int| 0 <= i < path.len() ==> #[trigger] standardized(path)[i] == if path[i] == '\\' { '/' } else { path[i] },
{
}

/// Where a pattern occurs in a text, it occurs first somewhere.
pub proof fn lemma_first_occurrence_exists(text: Seq<char>, pattern: Seq<char>, at: int)
    requires
        occurs_at(text, pattern, at),
    ensures
        exists|first: int| is_first_occurrence(text, pattern, first),
    decreases at,
{
    if exists|before: int| 0 <= before < at && #[trigger] occurs_at(text, pattern, before) {
        let before = choose|before: int| 0 <= before < at && #[trigger] occurs_at(text, pattern, before);
        lemma_first_occurrence_exists(text, pattern, before);
    } else {
        assert(is_first_occurrence(text, pattern, at));
    }
}

} // verus!
