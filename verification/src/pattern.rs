//! Regular expressions of the `regex` crate, and what they capture.
use crate::chars;
use regex::Regex;
use vstd::prelude::*;

verus! {

/// A compiled regular expression of the `regex` crate.
#[verifier::external_type_specification]
#[verifier::external_body]
pub struct ExRegex(Regex);

/// A capture group that took part in a match.
#[derive(Debug, Clone)]
pub struct Group {
    /// What stands in the searched text before the group.
    pub before: String,
    /// What the group matched.
    pub matched: String,
}

/// For each capture group of an expression, the whole match first, what stands before it and
/// what it matched, where it took part in the match.
pub type Groups = Seq<Option<(Seq<char>, Seq<char>)>>;

/// Whether `Regex::new` takes a text for a pattern.
pub uninterp spec fn is_pattern(pattern: Seq<char>) -> bool;

/// The pattern for which `Regex::new` gives a regular expression.
pub uninterp spec fn pattern_of(re: Regex) -> Seq<char>;

/// What `Regex::captures` of the expression for a pattern finds in a text: the groups of the
/// leftmost match, if there is a match.
pub uninterp spec fn captured(pattern: Seq<char>, text: Seq<char>) -> Option<Seq<Option<(Seq<char>, Seq<char>)>>>;

pub open spec fn group_view(g: Option<Group>) -> Option<(Seq<char>, Seq<char>)> {
    match g {
        Some(g) => Some((g.before@, g.matched@)),
        None => None,
    }
}

pub open spec fn groups_view(gs: Seq<Option<Group>>) -> Groups {
    gs.map_values(|g: Option<Group>| group_view(g))
}

pub open spec fn opt_groups(gs: Option<Vec<Option<Group>>>) -> Option<Groups> {
    match gs {
        Some(gs) => Some(groups_view(gs@)),
        None => None,
    }
}

/// What group number `i` matched, where there is such a group and it took part.
pub open spec fn matched_in(gs: Groups, i: int) -> Option<Seq<char>> {
    if 0 <= i < gs.len() && gs[i] is Some {
        Some(gs[i]->Some_0.1)
    } else {
        None
    }
}

/// What group number `i` matched, or the empty text.
pub open spec fn text_in(gs: Groups, i: int) -> Seq<char> {
    match matched_in(gs, i) {
        Some(t) => t,
        None => seq![],
    }
}

/// What stands before the whole match.
pub open spec fn before_match(gs: Groups) -> Seq<char> {
    if gs.len() > 0 && gs[0] is Some {
        gs[0]->Some_0.0
    } else {
        seq![]
    }
}

/// Calls `Regex::new` on the pattern. The contract names when it succeeds, and claims that what
/// it then returns is the expression for that pattern.
#[verifier::external_body]
pub(crate) fn compile(pattern: &str) -> (r: Option<Regex>)
    ensures
        r is Some == is_pattern(pattern@),
        r matches Some(re) ==> pattern_of(re) == pattern@,
{
    Regex::new(pattern).ok()
}

/// Whether groups were captured in a text: what a group matched stands in the text, behind what
/// is reported to stand before it.
pub open spec fn drawn_from(gs: Groups, text: Seq<char>) -> bool {
    forall|i: int| 0 <= i < gs.len() && #[trigger] gs[i] is Some ==> chars::starts(text, gs[i]->Some_0.0 + gs[i]->Some_0.1)
}

/// What a group matched stands in the text.
pub proof fn lemma_text_is_held(gs: Groups, text: Seq<char>, i: int)
    requires
        drawn_from(gs, text),
    ensures
        chars::holds_text(text, text_in(gs, i)),
{
    let t = text_in(gs, i);
    chars::lemma_find_at(text, t);
    if matched_in(gs, i) is Some {
        let before = gs[i]->Some_0.0;
        assert(gs[i] is Some);
        assert(text.skip(before.len() as int).take(t.len() as int) =~= t) by {
            assert(text.take((before + t).len() as int) == before + t);
            assert forall|k: int| 0 <= k < t.len() implies text[before.len() + k] == t[k] by {
                assert((before + t)[before.len() + k] == text[before.len() + k]);
            }
        }
        assert(chars::starts(text.skip(before.len() as int), t));
    } else {
        assert(text.take(0) =~= t);
    }
}

/// Calls `Regex::captures` on the text and hands out, for each group in the order of
/// `Captures::iter`, the text before it and the text it matched. The contract names the result,
/// and claims that what each group matched follows what is reported to stand before it.
#[verifier::external_body]
pub(crate) fn captures(re: &Regex, text: &str) -> (r: Option<Vec<Option<Group>>>)
    ensures
        opt_groups(r) == captured(pattern_of(*re), text@),
        r matches Some(gs) ==> drawn_from(groups_view(gs@), text@),
{
    let found = re.captures(text)?;
    let groups = found.iter().map(
        |g| g.map(|m| Group { before: text[..m.start()].to_string(), matched: m.as_str().to_string() }),
    );
    Some(groups.collect())
}

/// What group number `i` matched.
pub fn matched(gs: &Vec<Option<Group>>, i: usize) -> (r: Option<String>)
    ensures
        chars::opt_text(r) == matched_in(groups_view(gs@), i as int),
{
    if i < gs.len() {
        assert(groups_view(gs@)[i as int] == group_view(gs@[i as int]));
        match &gs[i] {
            Some(g) => Some(g.matched.clone()),
            None => None,
        }
    } else {
        None
    }
}

/// What group number `i` matched, or the empty text.
pub fn text_of(gs: &Vec<Option<Group>>, i: usize) -> (r: String)
    ensures
        r@ == text_in(groups_view(gs@), i as int),
{
    match matched(gs, i) {
        Some(t) => t,
        None => String::new(),
    }
}

/// What stands before the whole match.
pub fn before_of(gs: &Vec<Option<Group>>) -> (r: String)
    ensures
        r@ == before_match(groups_view(gs@)),
{
    if gs.len() > 0 {
        assert(groups_view(gs@)[0] == group_view(gs@[0]));
        match &gs[0] {
            Some(g) => g.before.clone(),
            None => String::new(),
        }
    } else {
        String::new()
    }
}


/// What a group matched is found under its number, the whole match under zero; one that took no
/// part matched nothing.
pub proof fn law_groups_are_numbered(gs: Groups, i: int, before: Seq<char>, matched: Seq<char>)
    requires
        0 <= i < gs.len(),
        gs[i] == Some((before, matched)),
    ensures
        matched_in(gs, i) == Some(matched),
        text_in(gs, i) == matched,
        i == 0 ==> before_match(gs) == before,
        matched_in(gs.update(i, None), i) is None,
        text_in(gs.update(i, None), i) == Seq::<char>::empty(),
        matched_in(gs, gs.len() as int) is None,
{
}

} // verus!
