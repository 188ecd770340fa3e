//! Interpreting parsed YAML documents against the state-file schemas.
//!
//! A document's schema variant is decided by its top-level mapping keys
//! alone: `arrows` marks a single-state document, `tree` a tree document,
//! `states` a state list; when several recognized keys occur, the one later
//! in the document wins (an insertion-order quirk kept as observed, not a
//! deliberate priority).  A document that is no mapping, or has none of the
//! keys, stays `Unknown`.
//!
//! The parsers below read the generic `Yaml` tree into the typed shapes the
//! compiler works on, with a first-match-wins field lookup and fail-fast
//! errors.

use vstd::prelude::*;
use vstd::string::*;
use crate::yaml::Yaml;
use crate::errors::StateFileFormat;
use crate::ids::{ArrowId, StateId, str_eq};
use crate::model::{Arrow, ArrowV, arrows_view, opt_str_view};
use crate::tree::{StateTree, TreeV, tree_view, trees_view, lemma_trees_view_index};

verus! {

broadcast use vstd::std_specs::vec::axiom_vec_decreases_to_view, vstd::seq::axiom_seq_index_decreases, vstd::seq::axiom_seq_subrange_decreases;

/// Whether a mapping entry's key is the given string.
pub open spec fn entry_matches(e: (Yaml, Yaml), name: Seq<char>) -> bool {
    match e.0 {
        Yaml::Str(s) => s@ == name,
        _ => false,
    }
}

/// The position of the first entry keyed by `name`, or a negative value when
/// no entry is.
pub open spec fn field_index(entries: Seq<(Yaml, Yaml)>, name: Seq<char>) -> int
    decreases entries.len(),
{
    if entries.len() == 0 {
        -1
    } else if entry_matches(entries.first(), name) {
        0
    } else {
        let r = field_index(entries.drop_first(), name);
        if r < 0 {
            -1
        } else {
            r + 1
        }
    }
}

/// The value of the first entry keyed by `name`, if any.
pub open spec fn field_of(entries: Seq<(Yaml, Yaml)>, name: Seq<char>) -> Option<Yaml> {
    let i = field_index(entries, name);
    if i < 0 {
        None
    } else {
        Some(entries[i].1)
    }
}

/// `field_index` finds the first matching entry, and stays in range.
pub proof fn lemma_field_index_props(s: Seq<(Yaml, Yaml)>, name: Seq<char>)
    ensures
        -1 <= field_index(s, name) < s.len(),
        field_index(s, name) >= 0 ==> entry_matches(s[field_index(s, name)], name),
        field_index(s, name) >= 0 ==> forall|k: int|
            0 <= k < field_index(s, name) ==> !entry_matches(#[trigger] s[k], name),
        field_index(s, name) < 0 ==> forall|k: int|
            0 <= k < s.len() ==> !entry_matches(#[trigger] s[k], name),
    decreases s.len(),
{
    if s.len() > 0 && !entry_matches(s.first(), name) {
        lemma_field_index_props(s.drop_first(), name);
        assert forall|k: int| 1 <= k < s.len() implies s.drop_first()[k - 1] == s[k] by {}
    }
}

/// Finds the position of the first entry keyed by `name`.
fn field_position(entries: &Vec<(Yaml, Yaml)>, name: &str) -> (r: Option<usize>)
    ensures
        match r {
            Some(i) => i < entries@.len() && field_index(entries@, name@) == i as int,
            None => field_index(entries@, name@) < 0,
        },
{
    let mut i: usize = 0;
    loop
        invariant
            i <= entries@.len(),
            forall|k: int| 0 <= k < i ==> !entry_matches(#[trigger] entries@[k], name@),
        decreases entries@.len() - i,
    {
        if i >= entries.len() {
            proof {
                lemma_field_index_props(entries@, name@);
            }
            return None;
        }
        let hit = match &entries[i].0 {
            Yaml::Str(s) => str_eq(s.as_str(), name),
            _ => false,
        };
        proof {
            assert(hit == entry_matches(entries@[i as int], name@));
        }
        if hit {
            proof {
                lemma_field_index_props(entries@, name@);
            }
            return Some(i);
        }
        i = i + 1;
    }
}

/// Borrows the value of the first entry keyed by `name`.
fn field<'a>(entries: &'a Vec<(Yaml, Yaml)>, name: &str) -> (r: Option<&'a Yaml>)
    ensures
        match r {
            Some(v) => field_of(entries@, name@) == Some(*v),
            None => field_of(entries@, name@) is None,
        },
{
    match field_position(entries, name) {
        Some(i) => Some(&entries[i].1),
        None => None,
    }
}

/// The schema variant one top-level key announces, if it is a recognized
/// string key.
pub open spec fn key_format(k: Yaml) -> Option<StateFileFormat> {
    match k {
        Yaml::Str(s) => if s@ == "arrows"@ {
            Some(StateFileFormat::State)
        } else if s@ == "tree"@ {
            Some(StateFileFormat::Tree)
        } else if s@ == "states"@ {
            Some(StateFileFormat::StateList)
        } else {
            None
        },
        _ => None,
    }
}

/// The schema variant a list of top-level entries announces: the last
/// recognized key wins; none leaves the document `Unknown`.
pub open spec fn sniff_entries(entries: Seq<(Yaml, Yaml)>) -> StateFileFormat
    decreases entries.len(),
{
    if entries.len() == 0 {
        StateFileFormat::Unknown
    } else {
        match key_format(entries.last().0) {
            Some(f) => f,
            None => sniff_entries(entries.drop_last()),
        }
    }
}

/// The schema variant of a whole document: decided by its top-level mapping
/// keys alone; a document that is no mapping is `Unknown`.
pub open spec fn sniff_spec(doc: Yaml) -> StateFileFormat {
    match doc {
        Yaml::Mapping(entries) => sniff_entries(entries@),
        _ => StateFileFormat::Unknown,
    }
}

/// Classifies a document by its top-level keys.
pub fn state_file_format(doc: &Yaml) -> (r: StateFileFormat)
    ensures
        r == sniff_spec(*doc),
{
    match doc {
        Yaml::Mapping(entries) => {
            let mut fmt = StateFileFormat::Unknown;
            let mut i: usize = 0;
            proof {
                assert(entries@.take(0) =~= Seq::<(Yaml, Yaml)>::empty());
            }
            loop
                invariant
                    i <= entries@.len(),
                    fmt == sniff_entries(entries@.take(i as int)),
                ensures
                    fmt == sniff_entries(entries@),
                decreases entries@.len() - i,
            {
                if i >= entries.len() {
                    proof {
                        assert(entries@.take(i as int) =~= entries@);
                    }
                    break;
                }
                match &entries[i].0 {
                    Yaml::Str(s) => {
                        if str_eq(s.as_str(), "arrows") {
                            fmt = StateFileFormat::State;
                        } else if str_eq(s.as_str(), "tree") {
                            fmt = StateFileFormat::Tree;
                        } else if str_eq(s.as_str(), "states") {
                            fmt = StateFileFormat::StateList;
                        }
                    },
                    _ => {},
                }
                proof {
                    assert(entries@.take(i + 1).drop_last() =~= entries@.take(i as int));
                    assert(entries@.take(i + 1).last() == entries@[i as int]);
                }
                i = i + 1;
            }
            fmt
        },
        _ => StateFileFormat::Unknown,
    }
}

/// Message for a document that should be a mapping and is not.
pub open spec fn msg_doc_not_mapping() -> Seq<char> {
    "invalid type: expected a mapping"@
}

/// Message for a missing `id` field.
pub open spec fn msg_missing_id() -> Seq<char> {
    "missing field `id`"@
}

/// Message for an `id` field that is not a string.
pub open spec fn msg_id_not_string() -> Seq<char> {
    "invalid type: field `id` must be a string"@
}

/// Message for a missing `arrows` field.
pub open spec fn msg_missing_arrows() -> Seq<char> {
    "missing field `arrows`"@
}

/// Message for an `arrows` field that is not a sequence.
pub open spec fn msg_arrows_not_list() -> Seq<char> {
    "invalid type: field `arrows` must be a sequence"@
}

/// Message for an arrow entry that is not a mapping.
pub open spec fn msg_arrow_not_mapping() -> Seq<char> {
    "invalid type: an arrow must be a mapping"@
}

/// Message for a missing `next` field.
pub open spec fn msg_missing_next() -> Seq<char> {
    "missing field `next`"@
}

/// Message for a `next` field that is not a string.
pub open spec fn msg_next_not_string() -> Seq<char> {
    "invalid type: field `next` must be a string"@
}

/// Message for a `description` field that is neither a string nor null.
pub open spec fn msg_description_not_string() -> Seq<char> {
    "invalid type: field `description` must be a string"@
}

/// Message for a `tree` field that is not a sequence.
pub open spec fn msg_tree_not_list() -> Seq<char> {
    "invalid type: field `tree` must be a sequence"@
}

/// The optional `description` field of a mapping: absent or null stands for
/// no description; any value other than a string is refused.
pub open spec fn parse_description(entries: Seq<(Yaml, Yaml)>) -> Result<
    Option<Seq<char>>,
    Seq<char>,
> {
    match field_of(entries, "description"@) {
        None => Ok(None),
        Some(v) => match v {
            Yaml::Null => Ok(None),
            Yaml::Str(s) => Ok(Some(s@)),
            _ => Err(msg_description_not_string()),
        },
    }
}

/// Reads the optional `description` field.
fn parse_description_field(entries: &Vec<(Yaml, Yaml)>) -> (r: Result<Option<String>, String>)
    ensures
        match r {
            Ok(d) => parse_description(entries@) == Ok::<Option<Seq<char>>, Seq<char>>(
                opt_str_view(d),
            ),
            Err(e) => parse_description(entries@) == Err::<Option<Seq<char>>, Seq<char>>(e@),
        },
{
    match field(entries, "description") {
        None => Ok(None),
        Some(v) => match v {
            Yaml::Null => Ok(None),
            Yaml::Str(s) => Ok(Some(s.clone())),
            _ => Err(String::from_str("invalid type: field `description` must be a string")),
        },
    }
}

/// One arrow read from a mapping: its `id` label, its fully qualified `next`
/// target, and an optional description.
pub open spec fn parse_arrow_spec(y: Yaml) -> Result<ArrowV, Seq<char>> {
    match y {
        Yaml::Mapping(entries) => match field_of(entries@, "id"@) {
            None => Err(msg_missing_id()),
            Some(idv) => match idv {
                Yaml::Str(id_s) => match field_of(entries@, "next"@) {
                    None => Err(msg_missing_next()),
                    Some(nv) => match nv {
                        Yaml::Str(next_s) => match parse_description(entries@) {
                            Ok(d) => Ok(ArrowV { id: id_s@, next: next_s@, description: d }),
                            Err(e) => Err(e),
                        },
                        _ => Err(msg_next_not_string()),
                    },
                },
                _ => Err(msg_id_not_string()),
            },
        },
        _ => Err(msg_arrow_not_mapping()),
    }
}

/// Reads one arrow from a document node.
fn parse_arrow(y: &Yaml) -> (r: Result<Arrow, String>)
    ensures
        match r {
            Ok(a) => parse_arrow_spec(*y) == Ok::<ArrowV, Seq<char>>(a@),
            Err(e) => parse_arrow_spec(*y) == Err::<ArrowV, Seq<char>>(e@),
        },
{
    match y {
        Yaml::Mapping(entries) => {
            let id_s: String = match field(entries, "id") {
                None => {
                    return Err(String::from_str("missing field `id`"));
                },
                Some(v) => match v {
                    Yaml::Str(s) => s.clone(),
                    _ => {
                        return Err(String::from_str("invalid type: field `id` must be a string"));
                    },
                },
            };
            let next_s: String = match field(entries, "next") {
                None => {
                    return Err(String::from_str("missing field `next`"));
                },
                Some(v) => match v {
                    Yaml::Str(s) => s.clone(),
                    _ => {
                        return Err(String::from_str("invalid type: field `next` must be a string"));
                    },
                },
            };
            let d = match parse_description_field(entries) {
                Ok(d) => d,
                Err(e) => {
                    return Err(e);
                },
            };
            Ok(Arrow { id: ArrowId(id_s), next: StateId(next_s), description: d })
        },
        _ => Err(String::from_str("invalid type: an arrow must be a mapping")),
    }
}

/// The arrows read from a sequence of arrow entries, in document order; the
/// first failing entry fails the whole sequence.
pub open spec fn parse_arrows_spec(items: Seq<Yaml>) -> Result<Seq<ArrowV>, Seq<char>>
    decreases items.len(),
{
    if items.len() == 0 {
        Ok(Seq::empty())
    } else {
        match parse_arrow_spec(items[0]) {
            Err(e) => Err(e),
            Ok(a) => match parse_arrows_spec(items.subrange(1, items.len() as int)) {
                Err(e) => Err(e),
                Ok(rest) => Ok(seq![a] + rest),
            },
        }
    }
}

/// Reads the arrows of a single-state document.
fn parse_arrows(items: &Vec<Yaml>) -> (r: Result<Vec<Arrow>, String>)
    ensures
        match r {
            Ok(arrows) => parse_arrows_spec(items@) == Ok::<Seq<ArrowV>, Seq<char>>(
                arrows_view(arrows@),
            ),
            Err(e) => parse_arrows_spec(items@) == Err::<Seq<ArrowV>, Seq<char>>(e@),
        },
{
    let mut out: Vec<Arrow> = Vec::new();
    let mut j: usize = 0;
    proof {
        assert(items@.skip(0) =~= items@);
        assert(arrows_view(out@) =~= Seq::<ArrowV>::empty());
    }
    loop
        invariant
            j <= items@.len(),
            parse_arrows_spec(items@) == (match parse_arrows_spec(items@.skip(j as int)) {
                Ok(rest) => Ok::<Seq<ArrowV>, Seq<char>>(arrows_view(out@) + rest),
                Err(e) => Err::<Seq<ArrowV>, Seq<char>>(e),
            }),
        ensures
            parse_arrows_spec(items@) == Ok::<Seq<ArrowV>, Seq<char>>(arrows_view(out@)),
        decreases items@.len() - j,
    {
        if j >= items.len() {
            proof {
                assert(items@.skip(j as int) =~= Seq::<Yaml>::empty());
                assert(parse_arrows_spec(items@.skip(j as int)) == Ok::<Seq<ArrowV>, Seq<char>>(
                    Seq::empty(),
                ));
                assert(arrows_view(out@) + Seq::<ArrowV>::empty() =~= arrows_view(out@));
            }
            break;
        }
        proof {
            assert(items@.skip(j as int)[0] == items@[j as int]);
            assert(items@.skip(j as int).subrange(1, items@.skip(j as int).len() as int)
                =~= items@.skip(j + 1));
        }
        match parse_arrow(&items[j]) {
            Err(e) => {
                return Err(e);
            },
            Ok(a) => {
                let ghost pre = arrows_view(out@);
                out.push(a);
                proof {
                    assert(arrows_view(out@) =~= pre.push(a@));
                    if parse_arrows_spec(items@.skip(j + 1)) is Ok {
                        let rest = parse_arrows_spec(items@.skip(j + 1))->Ok_0;
                        assert(pre + (seq![a@] + rest) =~= arrows_view(out@) + rest);
                    }
                }
            },
        }
        j = j + 1;
    }
    Ok(out)
}

/// A single-state document: its `id`, its raw arrows in document order, and
/// its optional `description`, which the compiled state keeps.
pub open spec fn parse_state_spec(doc: Yaml) -> Result<
    (Seq<char>, Seq<ArrowV>, Option<Seq<char>>),
    Seq<char>,
> {
    match doc {
        Yaml::Mapping(entries) => match field_of(entries@, "id"@) {
            None => Err(msg_missing_id()),
            Some(idv) => match idv {
                Yaml::Str(id_s) => match field_of(entries@, "arrows"@) {
                    None => Err(msg_missing_arrows()),
                    Some(av) => match av {
                        Yaml::List(items) => match parse_arrows_spec(items@) {
                            Err(e) => Err(e),
                            Ok(arrows) => match parse_description(entries@) {
                                Err(e) => Err(e),
                                Ok(d) => Ok((id_s@, arrows, d)),
                            },
                        },
                        _ => Err(msg_arrows_not_list()),
                    },
                },
                _ => Err(msg_id_not_string()),
            },
        },
        _ => Err(msg_doc_not_mapping()),
    }
}

/// Reads a single-state document into its id, raw arrows and description.
pub fn parse_state_doc(doc: &Yaml) -> (r: Result<(String, Vec<Arrow>, Option<String>), String>)
    ensures
        match r {
            Ok(p) => parse_state_spec(*doc) == Ok::<
                (Seq<char>, Seq<ArrowV>, Option<Seq<char>>),
                Seq<char>,
            >((p.0@, arrows_view(p.1@), opt_str_view(p.2))),
            Err(e) => parse_state_spec(*doc) == Err::<
                (Seq<char>, Seq<ArrowV>, Option<Seq<char>>),
                Seq<char>,
            >(e@),
        },
{
    match doc {
        Yaml::Mapping(entries) => {
            let id_s: String = match field(entries, "id") {
                None => {
                    return Err(String::from_str("missing field `id`"));
                },
                Some(v) => match v {
                    Yaml::Str(s) => s.clone(),
                    _ => {
                        return Err(String::from_str("invalid type: field `id` must be a string"));
                    },
                },
            };
            let arrows = match field(entries, "arrows") {
                None => {
                    return Err(String::from_str("missing field `arrows`"));
                },
                Some(v) => match v {
                    Yaml::List(items) => match parse_arrows(items) {
                        Ok(arrows) => arrows,
                        Err(e) => {
                            return Err(e);
                        },
                    },
                    _ => {
                        return Err(
                            String::from_str("invalid type: field `arrows` must be a sequence"),
                        );
                    },
                },
            };
            match parse_description_field(entries) {
                Ok(d) => Ok((id_s, arrows, d)),
                Err(e) => Err(e),
            }
        },
        _ => Err(String::from_str("invalid type: expected a mapping")),
    }
}

/// A tree document node: its `id`, its child nodes under `tree` (absent
/// means none), and an optional description.
pub open spec fn parse_tree_spec(y: Yaml) -> Result<TreeV, Seq<char>>
    decreases y,
{
    match y {
        Yaml::Mapping(entries) => match field_of(entries@, "id"@) {
            None => Err(msg_missing_id()),
            Some(idv) => match idv {
                Yaml::Str(id_s) => {
                    let ti = field_index(entries@, "tree"@);
                    if 0 <= ti && ti < entries@.len() {
                        match entries@[ti].1 {
                            Yaml::List(items) => match parse_forest_spec(items@) {
                                Err(e) => Err(e),
                                Ok(children) => match parse_description(entries@) {
                                    Err(e) => Err(e),
                                    Ok(d) => Ok(
                                        TreeV { id: id_s@, tree: children, description: d },
                                    ),
                                },
                            },
                            _ => Err(msg_tree_not_list()),
                        }
                    } else {
                        match parse_description(entries@) {
                            Err(e) => Err(e),
                            Ok(d) => Ok(TreeV { id: id_s@, tree: Seq::empty(), description: d }),
                        }
                    }
                },
                _ => Err(msg_id_not_string()),
            },
        },
        _ => Err(msg_doc_not_mapping()),
    }
}

/// The child nodes read from a `tree` sequence, in document order; the first
/// failing entry fails the whole sequence.
pub open spec fn parse_forest_spec(items: Seq<Yaml>) -> Result<Seq<TreeV>, Seq<char>>
    decreases items,
{
    if items.len() == 0 {
        Ok(Seq::empty())
    } else {
        match parse_tree_spec(items[0]) {
            Err(e) => Err(e),
            Ok(t) => match parse_forest_spec(items.subrange(1, items.len() as int)) {
                Err(e) => Err(e),
                Ok(rest) => Ok(seq![t] + rest),
            },
        }
    }
}

/// Reads a tree document node.
pub fn parse_tree(y: &Yaml) -> (r: Result<StateTree, String>)
    ensures
        match r {
            Ok(t) => parse_tree_spec(*y) == Ok::<TreeV, Seq<char>>(tree_view(t)),
            Err(e) => parse_tree_spec(*y) == Err::<TreeV, Seq<char>>(e@),
        },
    decreases *y,
{
    match y {
        Yaml::Mapping(entries) => {
            let id_s: String = match field(entries, "id") {
                None => {
                    return Err(String::from_str("missing field `id`"));
                },
                Some(v) => match v {
                    Yaml::Str(s) => s.clone(),
                    _ => {
                        return Err(String::from_str("invalid type: field `id` must be a string"));
                    },
                },
            };
            let children: Vec<StateTree> = match field_position(entries, "tree") {
                None => Vec::new(),
                Some(ti) => match &entries[ti].1 {
                    Yaml::List(items) => {
                        proof {
                            assert(decreases_to!(*entries => entries@));
                            assert(decreases_to!(entries@ => entries@[ti as int]));
                            assert(decreases_to!(entries@[ti as int] => entries@[ti as int].1));
                            assert(entries@[ti as int].1 == Yaml::List(*items));
                            assert(decreases_to!(entries@[ti as int].1 => *items));
                            assert(decreases_to!(*y => *items));
                        }
                        match parse_forest(items) {
                            Ok(ts) => ts,
                            Err(e) => {
                                return Err(e);
                            },
                        }
                    },
                    _ => {
                        return Err(
                            String::from_str("invalid type: field `tree` must be a sequence"),
                        );
                    },
                },
            };
            match parse_description_field(entries) {
                Ok(d) => Ok(StateTree { id: id_s, tree: children, description: d }),
                Err(e) => Err(e),
            }
        },
        _ => Err(String::from_str("invalid type: expected a mapping")),
    }
}

/// Reads the child nodes of a tree document node.
fn parse_forest(items: &Vec<Yaml>) -> (r: Result<Vec<StateTree>, String>)
    ensures
        match r {
            Ok(ts) => parse_forest_spec(items@) == Ok::<Seq<TreeV>, Seq<char>>(trees_view(ts@)),
            Err(e) => parse_forest_spec(items@) == Err::<Seq<TreeV>, Seq<char>>(e@),
        },
    decreases items@,
{
    let mut out: Vec<StateTree> = Vec::new();
    let mut j: usize = 0;
    proof {
        assert(items@.skip(0) =~= items@);
        lemma_trees_view_index(out@);
        assert(trees_view(out@) =~= Seq::<TreeV>::empty());
    }
    loop
        invariant
            j <= items@.len(),
            out@.len() == j,
            parse_forest_spec(items@) == (match parse_forest_spec(items@.skip(j as int)) {
                Ok(rest) => Ok::<Seq<TreeV>, Seq<char>>(trees_view(out@) + rest),
                Err(e) => Err::<Seq<TreeV>, Seq<char>>(e),
            }),
        ensures
            parse_forest_spec(items@) == Ok::<Seq<TreeV>, Seq<char>>(trees_view(out@)),
        decreases items@.len() - j,
    {
        if j >= items.len() {
            proof {
                assert(items@.skip(j as int) =~= Seq::<Yaml>::empty());
                assert(trees_view(out@) + Seq::<TreeV>::empty() =~= trees_view(out@));
            }
            break;
        }
        proof {
            assert(items@.skip(j as int)[0] == items@[j as int]);
            assert(items@.skip(j as int).subrange(1, items@.skip(j as int).len() as int)
                =~= items@.skip(j + 1));
            assert(decreases_to!(*items => items@));
            assert(decreases_to!(items@ => items@[j as int]));
        }
        match parse_tree(&items[j]) {
            Err(e) => {
                return Err(e);
            },
            Ok(t) => {
                let ghost pre_vec = out@;
                let ghost pre = trees_view(out@);
                out.push(t);
                proof {
                    assert(out@.subrange(0, out@.len() - 1) =~= pre_vec);
                    assert(out@[out@.len() - 1] == t);
                    assert(trees_view(out@) == pre.push(tree_view(t)));
                    if parse_forest_spec(items@.skip(j + 1)) is Ok {
                        let rest = parse_forest_spec(items@.skip(j + 1))->Ok_0;
                        assert(pre + (seq![tree_view(t)] + rest) =~= trees_view(out@) + rest);
                    }
                }
            },
        }
        j = j + 1;
    }
    Ok(out)
}

} // verus!
