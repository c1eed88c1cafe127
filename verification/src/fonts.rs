//! Which font is used, and how the choice is remembered.
use vstd::prelude::*;

use crate::text::{
    is_space, is_trimmed, law_trimmed_text_is_kept, law_trimming_is_unique,
    law_trimming_twice_changes_nothing, trim, trims_to,
};

verus! {

/// The name that a font loaded by the user is registered under.
pub fn user_font_name() -> (name: String)
    ensures
        name@ == "user_font"@,
{
    "user_font".to_string()
}

/// The name of the file that remembers the font, beside the program.
pub fn config_file_name() -> (name: String)
    ensures
        name@ == "audio_analyzer.font_path.txt"@,
{
    "audio_analyzer.font_path.txt".to_string()
}

/// The font files that are looked for where none is remembered.
pub fn candidate_names() -> (names: Vec<String>)
    ensures
        names@.len() == 3,
        names@[0]@ == "default_font.ttf"@,
        names@[1]@ == "default_font.otf"@,
        names@[2]@ == "./meiryo.ttc"@,
{
    let mut names: Vec<String> = Vec::new();
    names.push("default_font.ttf".to_string());
    names.push("default_font.otf".to_string());
    names.push("./meiryo.ttc".to_string());
    names
}

/// What is written to remember the font at `path`.
pub fn config_text(path: &str) -> (text: String)
    ensures
        trims_to(path@, text@),
{
    trim(path)
}

/// Whether `font` is the path that a remembered `text` names, if it names one.
pub open spec fn names_font(text: Seq<char>, font: Option<String>) -> bool {
    match font {
        Some(path) => trims_to(text, path@) && path@.len() > 0,
        None => trims_to(text, Seq::empty()),
    }
}

/// The path that the remembered `text` names, unless it is blank.
pub fn configured_font(text: &str) -> (font: Option<String>)
    ensures
        names_font(text@, font),
{
    let trimmed = trim(text);
    if trimmed.as_str().is_empty() {
        assert(trimmed@ =~= Seq::empty());
        None
    } else {
        Some(trimmed)
    }
}

/// Whether `font` is the path that is remembered, where `text` is what could be read of the
/// file that remembers it.
pub open spec fn finds_font(text: Option<Seq<char>>, font: Option<String>) -> bool {
    match text {
        Some(text) => names_font(text, font),
        None => font is None,
    }
}

/// The remembered path. `text` is what the file that remembers it holds, or `None` where its
/// place is not known or it cannot be read.
pub fn remembered_font(text: Option<String>) -> (font: Option<String>)
    ensures
        finds_font(
            match text {
                Some(text) => Some(text@),
                None => None,
            },
            font,
        ),
{
    match text {
        Some(text) => configured_font(text.as_str()),
        None => None,
    }
}

/// A remembered font is found again: reading back what was written for a path gives that path
/// without the white space at its ends, and nothing if the path was blank.
pub proof fn law_remembered_font_is_found(path: Seq<char>, text: Seq<char>, font: Option<String>)
    requires
        trims_to(path, text),
        names_font(text, font),
    ensures
        font is None <==> text.len() == 0,
        font matches Some(found) ==> found@ == text,
        is_trimmed(path) && path.len() > 0 ==> (font matches Some(found) && found@ == path),
{
    law_trimming_twice_changes_nothing(path, text);
    let read = match font {
        Some(found) => found@,
        None => Seq::empty(),
    };
    assert(read == text) by {
        law_trimming_is_unique(text, text, read);
    }
    if is_trimmed(path) {
        assert(path == text) by {
            law_trimmed_text_is_kept(path);
            law_trimming_is_unique(path, path, text);
        }
    }
}

/// What became of removing the file that remembers the font.
#[derive(Clone, Copy, Debug, PartialEq, Eq, Structural)]
pub enum Removal {
    Removed,
    /// There was no such file.
    Missing,
    Failed,
}

/// Whether nothing is remembered any more. `removal` is `None` where no place for the file is
/// known, so that nothing can have been remembered.
pub fn is_forgotten(removal: Option<Removal>) -> (r: bool)
    ensures
        r == (removal != Some(Removal::Failed)),
{
    match removal {
        None => true,
        Some(Removal::Removed) => true,
        Some(Removal::Missing) => true,
        Some(Removal::Failed) => false,
    }
}

/// What can be read of the file that remembers the font once its removal was tried, where
/// `before` could be read of it before.
pub open spec fn left_by(removal: Option<Removal>, before: Option<Seq<char>>) -> Option<
    Seq<char>,
> {
    match removal {
        Some(Removal::Failed) => before,
        _ => None,
    }
}

/// A forgotten font is not found again, whatever was remembered.
pub proof fn law_forgotten_font_is_not_found(
    removal: Option<Removal>,
    before: Option<Seq<char>>,
    font: Option<String>,
)
    requires
        removal != Some(Removal::Failed),
        finds_font(left_by(removal, before), font),
    ensures
        font is None,
{
}

/// Whether every candidate before number `name` under base `base` may have been found missing.
pub open spec fn missing_before<F: Fn(usize, usize) -> bool>(
    is_file: F,
    names: usize,
    base: int,
    name: int,
) -> bool {
    forall|b: usize, n: usize|
        n < names && (b < base || b == base && n < name) ==> #[trigger] call_ensures(
            is_file,
            (b, n),
            false,
        )
}

/// The first font file that exists. Under each of `bases` directories, in order, each of
/// `names` names is tried; `is_file` tells of a directory and a name whether a file is there.
pub fn find_candidate<F: Fn(usize, usize) -> bool>(bases: usize, names: usize, is_file: F) -> (r:
    Option<(usize, usize)>)
    requires
        forall|b: usize, n: usize|
            b < bases && n < names ==> #[trigger] call_requires(is_file, (b, n)),
    ensures
        r matches Some((base, name)) ==> {
            &&& base < bases
            &&& name < names
            &&& call_ensures(is_file, (base, name), true)
            &&& missing_before(is_file, names, base as int, name as int)
        },
        r is None ==> missing_before(is_file, names, bases as int, 0),
{
    let mut base: usize = 0;
    while base < bases
        invariant
            base <= bases,
            forall|b: usize, n: usize|
                b < bases && n < names ==> #[trigger] call_requires(is_file, (b, n)),
            missing_before(is_file, names, base as int, 0),
        decreases bases - base,
    {
        let mut name: usize = 0;
        while name < names
            invariant
                base < bases,
                name <= names,
                forall|b: usize, n: usize|
                    b < bases && n < names ==> #[trigger] call_requires(is_file, (b, n)),
                missing_before(is_file, names, base as int, name as int),
            decreases names - name,
        {
            if is_file(base, name) {
                return Some((base, name));
            }
            name += 1;
        }
        base += 1;
    }
    None
}

/// Puts the user's font before all others of a family.
pub fn prefer_user_font(family: &mut Vec<String>)
    ensures
        final(family)@.len() == old(family)@.len() + 1,
        final(family)@[0]@ == "user_font"@,
        final(family)@.skip(1) == old(family)@,
{
    family.insert(0, user_font_name());
    assert(family@.skip(1) =~= old(family)@);
}

/// Puts the user's font before all others, in texts and in fixed-width rows alike.
pub fn prefer_user_font_in_both(proportional: &mut Vec<String>, monospace: &mut Vec<String>)
    ensures
        final(proportional)@.len() == old(proportional)@.len() + 1,
        final(proportional)@[0]@ == "user_font"@,
        final(proportional)@.skip(1) == old(proportional)@,
        final(monospace)@.len() == old(monospace)@.len() + 1,
        final(monospace)@[0]@ == "user_font"@,
        final(monospace)@.skip(1) == old(monospace)@,
{
    prefer_user_font(proportional);
    prefer_user_font(monospace);
}

/// The font file that is found exists, and none of those that are tried before it does: earlier
/// directories come first, and in a directory the earlier names. If none is found, none exists.
pub proof fn law_first_existing_candidate_is_found<F: Fn(usize, usize) -> bool>(
    bases: usize,
    names: usize,
    is_file: F,
    r: Option<(usize, usize)>,
    base: usize,
    name: usize,
)
    requires
        call_ensures(find_candidate::<F>, (bases, names, is_file), r),
        base < bases,
        name < names,
    ensures
        r matches Some((b, n)) ==> {
            &&& b < bases && n < names
            &&& call_ensures(is_file, (b, n), true)
            &&& base < b || base == b && name < n ==> call_ensures(is_file, (base, name), false)
        },
        r is None ==> call_ensures(is_file, (base, name), false),
{
}

/// Where the part of a text that trimming leaves begins.
proof fn lemma_place_of_trimmed(s: Seq<char>, r: Seq<char>) -> (from: int)
    requires
        trims_to(s, r),
    ensures
        0 <= from,
        from + r.len() <= s.len(),
        r == s.subrange(from, from + r.len()),
        forall|i: int| 0 <= i < from || from + r.len() <= i < s.len() ==> is_space(#[trigger] s[i]),
        r.len() == 0 <==> forall|i: int| 0 <= i < s.len() ==> is_space(#[trigger] s[i]),
{
    let (from, to) = choose|from: int, to: int|
        {
            &&& 0 <= from <= to <= s.len()
            &&& r == #[trigger] s.subrange(from, to)
            &&& is_trimmed(r)
            &&& forall|i: int| 0 <= i < from || to <= i < s.len() ==> is_space(#[trigger] s[i])
        };
    if r.len() > 0 {
        assert(r[0] == s[from]);
        assert(!is_space(s[from]));
    }
    from
}

/// A font that is remembered is found again: what is found is the path without the white space
/// around it, and nothing is found exactly if the path is all white space.
pub proof fn law_path_is_remembered(path: &str, text: String, font: Option<String>)
    requires
        call_ensures(config_text, (path,), text),
        call_ensures(remembered_font, (Some(text),), font),
    ensures
        font matches Some(found) ==> {
            &&& found@ == text@
            &&& found@.len() > 0
            &&& !is_space(found@[0]) && !is_space(found@[found@.len() - 1])
            &&& exists|from: int|
                {
                    &&& 0 <= from
                    &&& from + found@.len() <= path@.len()
                    &&& found@ == #[trigger] path@.subrange(from, from + found@.len())
                    &&& forall|i: int|
                        0 <= i < from || from + found@.len() <= i < path@.len() ==> is_space(
                            #[trigger] path@[i],
                        )
                }
        },
        font is None <==> forall|i: int| 0 <= i < path@.len() ==> is_space(#[trigger] path@[i]),
{
    law_remembered_font_is_found(path@, text@, font);
    let from = lemma_place_of_trimmed(path@, text@);
    assert(is_trimmed(text@)) by {
        law_trimming_twice_changes_nothing(path@, text@);
    }
    assert(text@ == path@.subrange(from, from + text@.len()));
}

/// Where nothing can be read, nothing is remembered.
pub proof fn law_unreadable_text_names_nothing(font: Option<String>)
    requires
        call_ensures(remembered_font, (None::<String>,), font),
    ensures
        font is None,
{
}

/// In both families the user's font comes first, and the fonts that were there follow in their
/// order.
pub proof fn law_user_font_comes_first(
    proportional: &mut Vec<String>,
    monospace: &mut Vec<String>,
    i: int,
    j: int,
)
    requires
        call_ensures(prefer_user_font_in_both, (proportional, monospace), ()),
        0 <= i < old(proportional)@.len(),
        0 <= j < old(monospace)@.len(),
    ensures
        final(proportional)@.len() == old(proportional)@.len() + 1,
        final(proportional)@[0]@ == "user_font"@,
        final(proportional)@[i + 1] == old(proportional)@[i],
        final(monospace)@.len() == old(monospace)@.len() + 1,
        final(monospace)@[0]@ == "user_font"@,
        final(monospace)@[j + 1] == old(monospace)@[j],
{
    assert(final(proportional)@.skip(1)[i] == old(proportional)@[i]);
    assert(final(monospace)@.skip(1)[j] == old(monospace)@[j]);
}

} // verus!
