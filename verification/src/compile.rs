//! The filesystem-to-automaton compiler.
//!
//! Input: every regular file found under the compile root, as an in-memory
//! listing (the caller walks the directory and reads the files; unreadable
//! entries are skipped there, best effort).  Each file's position decides
//! where its states go: a file directly under the root belongs to the
//! implicit `default` machine with no id prefix; deeper files belong to the
//! machine named by their first path segment, and the segments between the
//! machine and the file name form a `/`-joined prefix put in front of every
//! state id the file produces.  Dispatch is by extension: `.yaml` files are
//! sniffed and parsed, a missing extension and any other extension are
//! distinct errors.  Any failing file aborts the whole compile, fail-fast.
//! Accumulated states are assembled into one machine per id, in first-seen
//! order, with a machine `default` always appended last, even empty.

use vstd::prelude::*;
use vstd::string::*;
use crate::ids::{lex_le, str_eq, str_le};
use crate::model::{Arrow, State, Machine, ArrowV, StateV, MachineV, sort_arrows, sort_states,
    arrows_view, states_view, machines_view, opt_str_view};
use crate::errors::{Format, StateFileFormat, MachinesError, FormatNestedMachinesError,
    StateFileParseError, StateYAMLFileParseError, StateYAMLFileParseYAMLError, YamlParseErrV,
    StateYAMLFileParseErrorV, StateFileParseErrorV};
use crate::yaml::{Yaml, yaml_parse_of, parse_yaml};
use crate::document::{sniff_spec, state_file_format, parse_state_spec, parse_state_doc,
    parse_tree_spec, parse_tree};
use crate::tree::{StateTree, TreeV, tree_view, join2, flatten_tree_spec, flatten_tree, join_str};

verus! {

/// One regular file under the compile root: its path segments relative to
/// the root, the path as shown in diagnostics, and its bytes, or the message
/// of the read failure that will surface if the compiler needs them.
#[derive(Debug)]
pub struct SourceFile {
    pub segments: Vec<String>,
    pub path_text: String,
    pub content: Result<Vec<u8>, String>,
}

/// Mathematical value of a `SourceFile`.
pub ghost struct FileV {
    pub segments: Seq<Seq<char>>,
    pub path_text: Seq<char>,
    pub content: Result<Seq<u8>, Seq<char>>,
}

impl View for SourceFile {
    type V = FileV;

    open spec fn view(&self) -> FileV {
        FileV {
            segments: Seq::new(self.segments@.len(), |i: int| self.segments@[i]@),
            path_text: self.path_text@,
            content: match self.content {
                Ok(bytes) => Ok(bytes@),
                Err(msg) => Err(msg@),
            },
        }
    }
}

pub open spec fn files_view(s: Seq<SourceFile>) -> Seq<FileV> {
    Seq::new(s.len(), |i: int| s[i]@)
}

/// The position of the dot starting a file name's extension: the last dot,
/// unless the name's only dot leads it (a hidden file has no extension), or
/// a negative value when there is none.
pub open spec fn last_dot(name: Seq<char>) -> int
    decreases name.len(),
{
    if name.len() <= 1 {
        -1
    } else if name.last() == '.' {
        name.len() - 1
    } else {
        last_dot(name.drop_last())
    }
}

/// A file name's extension: what follows the last dot, absent when no dot
/// follows the first character.
pub open spec fn extension_of(name: Seq<char>) -> Option<Seq<char>> {
    let d = last_dot(name);
    if d < 0 {
        None
    } else {
        Some(name.subrange(d + 1, name.len() as int))
    }
}

/// Reads a file name's extension.
pub fn extension(name: &str) -> (r: Option<String>)
    ensures
        match r {
            Some(e) => extension_of(name@) == Some(e@),
            None => extension_of(name@) is None,
        },
{
    let len = name.unicode_len();
    let mut j: usize = len;
    proof {
        assert(name@.take(len as int) =~= name@);
    }
    loop
        invariant
            j <= len,
            len == name@.len(),
            last_dot(name@) == last_dot(name@.take(j as int)),
        decreases j,
    {
        if j <= 1 {
            return None;
        }
        let c = name.get_char(j - 1);
        if c == '.' {
            let e = name.substring_char(j, len);
            proof {
                assert(name@.take(j as int).last() == name@[j - 1]);
                assert(last_dot(name@.take(j as int)) == j - 1);
                assert(e@ =~= name@.subrange(j as int, name@.len() as int));
            }
            return Some(String::from_str(e));
        }
        proof {
            assert(name@.take(j as int).last() == name@[j - 1]);
            assert(name@.take(j as int).drop_last() =~= name@.take(j - 1));
        }
        j = j - 1;
    }
}

/// The directory segments between a file's machine and its name, used to
/// prefix the state ids it produces.
pub open spec fn file_prefix(segments: Seq<Seq<char>>) -> Seq<Seq<char>> {
    if segments.len() >= 2 {
        segments.subrange(1, segments.len() - 1)
    } else {
        Seq::empty()
    }
}

/// Path segments joined with `/`.
pub open spec fn join_segments(parts: Seq<Seq<char>>) -> Seq<char>
    decreases parts.len(),
{
    if parts.len() == 0 {
        Seq::empty()
    } else if parts.len() == 1 {
        parts[0]
    } else {
        join2(join_segments(parts.drop_last()), parts.last())
    }
}

/// A state id put under a file's directory prefix, when it has one.
pub open spec fn prefixed_id(parts: Seq<Seq<char>>, id: Seq<char>) -> Seq<char> {
    if parts.len() == 0 {
        id
    } else {
        join2(join_segments(parts), id)
    }
}

/// A state rebuilt under its file's directory prefix: the id prefixed, the
/// arrows sorted again, the description kept.
pub open spec fn reprefix_state(parts: Seq<Seq<char>>, st: StateV) -> StateV {
    StateV {
        id: prefixed_id(parts, st.id),
        arrows: sort_arrows(st.arrows),
        description: st.description,
    }
}

pub open spec fn reprefix_states(parts: Seq<Seq<char>>, sts: Seq<StateV>) -> Seq<StateV> {
    Seq::new(sts.len(), |i: int| reprefix_state(parts, sts[i]))
}

/// The states one `.yaml` file yields: the bytes parse into a generic
/// document, or fail tagged `Unknown` (no format was known yet); the
/// document is then sniffed and read.
pub open spec fn yaml_file_states(file: FileV, machine_id: Seq<char>) -> Result<
    Seq<StateV>,
    StateYAMLFileParseErrorV,
> {
    match file.content {
        Err(msg) => Err(StateYAMLFileParseErrorV::File(msg)),
        Ok(bytes) => match yaml_parse_of(bytes) {
            Err(e) => Err(
                StateYAMLFileParseErrorV::YAML(
                    YamlParseErrV {
                        file_path: file.path_text,
                        format: StateFileFormat::Unknown,
                        error: e,
                    },
                ),
            ),
            Ok(doc) => sniffed_states(file.path_text, doc, machine_id),
        },
    }
}

/// The states a parsed document yields once sniffed: read it as one state
/// (keeping its description), flatten it as a tree, accept a state list as
/// empty (not yet implemented), or refuse it as unknown.
pub open spec fn sniffed_states(path_text: Seq<char>, doc: Yaml, machine_id: Seq<char>) -> Result<
    Seq<StateV>,
    StateYAMLFileParseErrorV,
> {
    match sniff_spec(doc) {
        StateFileFormat::State => match parse_state_spec(doc) {
            Err(e) => Err(
                StateYAMLFileParseErrorV::YAML(
                    YamlParseErrV {
                        file_path: path_text,
                        format: StateFileFormat::State,
                        error: e,
                    },
                ),
            ),
            Ok(p) => Ok(seq![StateV { id: p.0, arrows: sort_arrows(p.1), description: p.2 }]),
        },
        StateFileFormat::Tree => match parse_tree_spec(doc) {
            Err(e) => Err(
                StateYAMLFileParseErrorV::YAML(
                    YamlParseErrV {
                        file_path: path_text,
                        format: StateFileFormat::Tree,
                        error: e,
                    },
                ),
            ),
            Ok(t) => Ok(flatten_tree_spec(machine_id, t)),
        },
        StateFileFormat::StateList => Ok(Seq::empty()),
        StateFileFormat::Unknown => Err(StateYAMLFileParseErrorV::UnknownFormat),
    }
}

/// The states one file yields, dispatched on its extension.
pub open spec fn file_states(file: FileV, machine_id: Seq<char>) -> Result<
    Seq<StateV>,
    StateFileParseErrorV,
> {
    match extension_of(file.segments.last()) {
        None => Err(StateFileParseErrorV::NoExtensionOrError),
        Some(ext) => if ext == "yaml"@ {
            match yaml_file_states(file, machine_id) {
                Err(e) => Err(StateFileParseErrorV::YAML(e)),
                Ok(sts) => Ok(sts),
            }
        } else {
            Err(StateFileParseErrorV::UnsupportedExtension)
        },
    }
}

/// What the walk has accumulated: the default machine's states, and each
/// named machine's states in first-seen order.
pub ghost struct AccV {
    pub default_states: Seq<StateV>,
    pub by_machine: Seq<(Seq<char>, Seq<StateV>)>,
}

/// Appends states under a machine id: onto the first entry with that id, or
/// as a new entry at the end.
pub open spec fn assoc_add(
    assoc: Seq<(Seq<char>, Seq<StateV>)>,
    key: Seq<char>,
    states: Seq<StateV>,
) -> Seq<(Seq<char>, Seq<StateV>)>
    decreases assoc.len(),
{
    if assoc.len() == 0 {
        seq![(key, states)]
    } else if assoc.first().0 == key {
        seq![(assoc.first().0, assoc.first().1 + states)] + assoc.drop_first()
    } else {
        seq![assoc.first()] + assoc_add(assoc.drop_first(), key, states)
    }
}

/// Folds one file into the accumulator.  A file with no segments (the root
/// itself) contributes nothing; one segment goes to the default machine
/// unprefixed; two or more go to the machine named by the first segment,
/// each state rebuilt under the directory prefix.
pub open spec fn apply_file(acc: AccV, file: FileV) -> Result<AccV, StateFileParseErrorV> {
    if file.segments.len() == 0 {
        Ok(acc)
    } else if file.segments.len() == 1 {
        match file_states(file, "default"@) {
            Err(e) => Err(e),
            Ok(sts) => Ok(
                AccV { default_states: acc.default_states + sts, by_machine: acc.by_machine },
            ),
        }
    } else {
        match file_states(file, file.segments[0]) {
            Err(e) => Err(e),
            Ok(sts) => Ok(
                AccV {
                    default_states: acc.default_states,
                    by_machine: assoc_add(
                        acc.by_machine,
                        file.segments[0],
                        reprefix_states(file_prefix(file.segments), sts),
                    ),
                },
            ),
        }
    }
}

/// Folds the whole file listing, in order, fail-fast.
pub open spec fn walk_files(files: Seq<FileV>) -> Result<AccV, StateFileParseErrorV>
    decreases files.len(),
{
    if files.len() == 0 {
        Ok(AccV { default_states: Seq::empty(), by_machine: Seq::empty() })
    } else {
        match walk_files(files.drop_last()) {
            Err(e) => Err(e),
            Ok(acc) => apply_file(acc, files.last()),
        }
    }
}

/// One machine per accumulated id, its states sorted.
pub open spec fn machines_of(assoc: Seq<(Seq<char>, Seq<StateV>)>) -> Seq<MachineV> {
    Seq::new(assoc.len(), |i: int| MachineV { id: assoc[i].0, states: sort_states(assoc[i].1) })
}

/// The whole compile: fold the files, then assemble one machine per id in
/// first-seen order, with the `default` machine always appended last.
pub open spec fn compile_spec(files: Seq<FileV>) -> Result<Seq<MachineV>, StateFileParseErrorV> {
    match walk_files(files) {
        Err(e) => Err(e),
        Ok(acc) => Ok(
            machines_of(acc.by_machine).push(
                MachineV { id: "default"@, states: sort_states(acc.default_states) },
            ),
        ),
    }
}

/// A compile that failed on a file stays failed however many files follow.
pub proof fn lemma_walk_files_stops(files: Seq<FileV>, i: int, e: StateFileParseErrorV)
    requires
        0 <= i < files.len(),
        walk_files(files.take(i + 1)) == Err::<AccV, StateFileParseErrorV>(e),
    ensures
        walk_files(files) == Err::<AccV, StateFileParseErrorV>(e),
    decreases files.len() - i,
{
    if i + 1 == files.len() {
        assert(files.take(i + 1) =~= files);
    } else {
        assert(files.take(i + 2).drop_last() =~= files.take(i + 1));
        assert(walk_files(files.take(i + 2)) == Err::<AccV, StateFileParseErrorV>(e));
        lemma_walk_files_stops(files, i + 1, e);
    }
}

/// Reads one `.yaml` file's states.
fn states_from_yaml_file(file: &SourceFile, machine_id: &str) -> (r: Result<
    Vec<State>,
    StateYAMLFileParseError,
>)
    ensures
        match r {
            Ok(sts) => yaml_file_states(file@, machine_id@) == Ok::<
                Seq<StateV>,
                StateYAMLFileParseErrorV,
            >(states_view(sts@)),
            Err(e) => yaml_file_states(file@, machine_id@) == Err::<
                Seq<StateV>,
                StateYAMLFileParseErrorV,
            >(e@),
        },
{
    let bytes = match &file.content {
        Err(msg) => {
            return Err(StateYAMLFileParseError::File(msg.clone()));
        },
        Ok(bytes) => bytes,
    };
    let doc = match parse_yaml(bytes.as_slice()) {
        Err(e) => {
            return Err(
                StateYAMLFileParseError::YAML(
                    StateYAMLFileParseYAMLError {
                        file_path: file.path_text.clone(),
                        format: StateFileFormat::Unknown,
                        error: e,
                    },
                ),
            );
        },
        Ok(doc) => doc,
    };
    match state_file_format(&doc) {
        StateFileFormat::State => match parse_state_doc(&doc) {
            Err(e) => Err(
                StateYAMLFileParseError::YAML(
                    StateYAMLFileParseYAMLError {
                        file_path: file.path_text.clone(),
                        format: StateFileFormat::State,
                        error: e,
                    },
                ),
            ),
            Ok(p) => {
                let (id, arrows, description) = p;
                let st = State::with_description(id.as_str(), arrows, description);
                let mut out: Vec<State> = Vec::new();
                out.push(st);
                proof {
                    assert(states_view(out@) =~= seq![st@]);
                }
                Ok(out)
            },
        },
        StateFileFormat::Tree => match parse_tree(&doc) {
            Err(e) => Err(
                StateYAMLFileParseError::YAML(
                    StateYAMLFileParseYAMLError {
                        file_path: file.path_text.clone(),
                        format: StateFileFormat::Tree,
                        error: e,
                    },
                ),
            ),
            Ok(t) => Ok(flatten_tree(machine_id, t)),
        },
        StateFileFormat::StateList => {
            let out: Vec<State> = Vec::new();
            proof {
                assert(states_view(out@) =~= Seq::<StateV>::empty());
            }
            Ok(out)
        },
        StateFileFormat::Unknown => Err(StateYAMLFileParseError::UnknownFormat),
    }
}

/// Reads one file's states, dispatching on its extension.
fn states_from_file(file: &SourceFile, machine_id: &str) -> (r: Result<
    Vec<State>,
    StateFileParseError,
>)
    requires
        file@.segments.len() >= 1,
    ensures
        match r {
            Ok(sts) => file_states(file@, machine_id@) == Ok::<Seq<StateV>, StateFileParseErrorV>(
                states_view(sts@),
            ),
            Err(e) => file_states(file@, machine_id@) == Err::<Seq<StateV>, StateFileParseErrorV>(
                e@,
            ),
        },
{
    let n = file.segments.len();
    let name = &file.segments[n - 1];
    proof {
        assert(file@.segments.last() == name@);
    }
    match extension(name.as_str()) {
        None => Err(StateFileParseError::NoExtensionOrError),
        Some(ext) => {
            if str_eq(ext.as_str(), "yaml") {
                match states_from_yaml_file(file, machine_id) {
                    Ok(sts) => Ok(sts),
                    Err(e) => Err(StateFileParseError::YAML(e)),
                }
            } else {
                Err(StateFileParseError::UnsupportedExtension)
            }
        },
    }
}

pub open spec fn assoc_view(s: Seq<(String, Vec<State>)>) -> Seq<(Seq<char>, Seq<StateV>)> {
    Seq::new(s.len(), |i: int| (s[i].0@, states_view(s[i].1@)))
}

/// Where the key already has an entry, `assoc_add` extends that entry in
/// place.
pub proof fn lemma_assoc_add_found(
    assoc: Seq<(Seq<char>, Seq<StateV>)>,
    key: Seq<char>,
    states: Seq<StateV>,
    idx: int,
)
    requires
        0 <= idx < assoc.len(),
        assoc[idx].0 == key,
        forall|k: int| 0 <= k < idx ==> (#[trigger] assoc[k]).0 != key,
    ensures
        assoc_add(assoc, key, states) == assoc.update(idx, (assoc[idx].0, assoc[idx].1 + states)),
    decreases assoc.len(),
{
    if idx == 0 {
        assert(seq![(assoc.first().0, assoc.first().1 + states)] + assoc.drop_first()
            =~= assoc.update(0, (assoc[0].0, assoc[0].1 + states)));
    } else {
        assert(assoc.first().0 != key);
        lemma_assoc_add_found(assoc.drop_first(), key, states, idx - 1);
        assert(assoc.drop_first()[idx - 1] == assoc[idx]);
        assert(seq![assoc.first()] + assoc.drop_first().update(
            idx - 1,
            (assoc[idx].0, assoc[idx].1 + states),
        ) =~= assoc.update(idx, (assoc[idx].0, assoc[idx].1 + states)));
    }
}

/// Where the key has no entry, `assoc_add` appends a new one.
pub proof fn lemma_assoc_add_new(
    assoc: Seq<(Seq<char>, Seq<StateV>)>,
    key: Seq<char>,
    states: Seq<StateV>,
)
    requires
        forall|k: int| 0 <= k < assoc.len() ==> (#[trigger] assoc[k]).0 != key,
    ensures
        assoc_add(assoc, key, states) == assoc.push((key, states)),
    decreases assoc.len(),
{
    if assoc.len() == 0 {
        assert(assoc_add(assoc, key, states) =~= assoc.push((key, states)));
    } else {
        lemma_assoc_add_new(assoc.drop_first(), key, states);
        assert(seq![assoc.first()] + assoc.drop_first().push((key, states)) =~= assoc.push(
            (key, states),
        ));
    }
}

/// Finds the first entry with the given machine id.
fn assoc_find(by_machine: &Vec<(String, Vec<State>)>, key: &str) -> (r: Option<usize>)
    ensures
        match r {
            Some(i) => i < by_machine@.len() && assoc_view(by_machine@)[i as int].0 == key@
                && forall|k: int|
                0 <= k < i ==> (#[trigger] assoc_view(by_machine@)[k]).0 != key@,
            None => forall|k: int|
                0 <= k < by_machine@.len() ==> (#[trigger] assoc_view(by_machine@)[k]).0 != key@,
        },
{
    let mut i: usize = 0;
    loop
        invariant
            i <= by_machine@.len(),
            forall|k: int| 0 <= k < i ==> (#[trigger] assoc_view(by_machine@)[k]).0 != key@,
        decreases by_machine@.len() - i,
    {
        if i >= by_machine.len() {
            return None;
        }
        if str_eq(by_machine[i].0.as_str(), key) {
            proof {
                assert(assoc_view(by_machine@)[i as int].0 == by_machine@[i as int].0@);
            }
            return Some(i);
        }
        proof {
            assert(assoc_view(by_machine@)[i as int].0 == by_machine@[i as int].0@);
        }
        i = i + 1;
    }
}

/// Appends states under a machine id, extending the machine's entry or
/// opening a new one.
fn assoc_push(by_machine: &mut Vec<(String, Vec<State>)>, key: String, states: Vec<State>)
    ensures
        assoc_view(final(by_machine)@) == assoc_add(
            assoc_view(old(by_machine)@),
            key@,
            states_view(states@),
        ),
{
    let ghost old_view = assoc_view(by_machine@);
    let ghost sv = states_view(states@);
    match assoc_find(by_machine, key.as_str()) {
        None => {
            proof {
                lemma_assoc_add_new(old_view, key@, sv);
            }
            by_machine.push((key, states));
            proof {
                assert(assoc_view(by_machine@) =~= old_view.push(
                    (by_machine@.last().0@, states_view(by_machine@.last().1@)),
                ));
            }
        },
        Some(i) => {
            proof {
                lemma_assoc_add_found(old_view, key@, sv, i as int);
            }
            let mut entry = by_machine.remove(i);
            let ghost entry_states = states_view(entry.1@);
            let mut states_in = states;
            entry.1.append(&mut states_in);
            proof {
                assert(states_view(entry.1@) =~= entry_states + sv);
            }
            by_machine.insert(i, entry);
            proof {
                assert(assoc_view(by_machine@) =~= old_view.update(
                    i as int,
                    (old_view[i as int].0, old_view[i as int].1 + sv),
                ));
            }
        },
    }
}

/// Compiles an in-memory file listing into machines under the
/// nested-machines directory convention.
pub fn nested_machines_from_filesystem(files: &Vec<SourceFile>) -> (r: Result<
    Vec<Machine>,
    FormatNestedMachinesError,
>)
    ensures
        match r {
            Ok(ms) => compile_spec(files_view(files@)) == Ok::<Seq<MachineV>, StateFileParseErrorV>(
                machines_view(ms@),
            ),
            Err(e) => compile_spec(files_view(files@)) == Err::<
                Seq<MachineV>,
                StateFileParseErrorV,
            >(e@),
        },
{
    let ghost fv = files_view(files@);
    let mut states_default: Vec<State> = Vec::new();
    let mut by_machine: Vec<(String, Vec<State>)> = Vec::new();
    let mut i: usize = 0;
    proof {
        assert(fv.take(0) =~= Seq::<FileV>::empty());
        assert(states_view(states_default@) =~= Seq::<StateV>::empty());
        assert(assoc_view(by_machine@) =~= Seq::<(Seq<char>, Seq<StateV>)>::empty());
    }
    loop
        invariant
            i <= files@.len(),
            fv == files_view(files@),
            walk_files(fv.take(i as int)) == Ok::<AccV, StateFileParseErrorV>(
                (AccV {
                    default_states: states_view(states_default@),
                    by_machine: assoc_view(by_machine@),
                }),
            ),
        ensures
            walk_files(fv) == Ok::<AccV, StateFileParseErrorV>(
                (AccV {
                    default_states: states_view(states_default@),
                    by_machine: assoc_view(by_machine@),
                }),
            ),
        decreases files@.len() - i,
    {
        if i >= files.len() {
            proof {
                assert(fv.take(i as int) =~= fv);
            }
            break;
        }
        let file = &files[i];
        let ghost acc = (AccV {
            default_states: states_view(states_default@),
            by_machine: assoc_view(by_machine@),
        });
        proof {
            assert(fv.take(i + 1).drop_last() =~= fv.take(i as int));
            assert(fv.take(i + 1).last() == file@);
        }
        let n = file.segments.len();
        if n == 1 {
            match states_from_file(file, "default") {
                Err(e) => {
                    proof {
                        assert(walk_files(fv.take(i + 1)) == Err::<AccV, StateFileParseErrorV>(e@));
                        lemma_walk_files_stops(fv, i as int, e@);
                    }
                    return Err(FormatNestedMachinesError::StateFile(e));
                },
                Ok(sts) => {
                    let ghost pre_default = states_view(states_default@);
                    let ghost sv = states_view(sts@);
                    let mut sts_in = sts;
                    states_default.append(&mut sts_in);
                    proof {
                        assert(states_view(states_default@) =~= pre_default + sv);
                    }
                },
            }
        } else if n >= 2 {
            let machine_name = file.segments[0].clone();
            proof {
                assert(machine_name@ == file@.segments[0]);
            }
            match states_from_file(file, machine_name.as_str()) {
                Err(e) => {
                    proof {
                        assert(walk_files(fv.take(i + 1)) == Err::<AccV, StateFileParseErrorV>(e@));
                        lemma_walk_files_stops(fv, i as int, e@);
                    }
                    return Err(FormatNestedMachinesError::StateFile(e));
                },
                Ok(sts) => {
                    let ghost parts = file_prefix(file@.segments);
                    let prefix_str: Option<String> = if n >= 3 {
                        let mut p = file.segments[1].clone();
                        let mut j: usize = 2;
                        proof {
                            assert(parts.take(1) =~= seq![file@.segments[1]]);
                            assert(p@ == join_segments(parts.take(1)));
                        }
                        loop
                            invariant
                                2 <= j <= n - 1,
                                n == file@.segments.len(),
                                file == &files[i as int],
                                parts == file_prefix(file@.segments),
                                p@ == join_segments(parts.take(j - 1)),
                            ensures
                                p@ == join_segments(parts),
                            decreases n - j,
                        {
                            if j >= n - 1 {
                                proof {
                                    assert(parts.take(j - 1) =~= parts);
                                }
                                break;
                            }
                            p = join_str(p.as_str(), file.segments[j].as_str());
                            proof {
                                assert(parts.take(j as int).drop_last() =~= parts.take(j - 1));
                                assert(parts.take(j as int).last() == file@.segments[j as int]);
                            }
                            j = j + 1;
                        }
                        Some(p)
                    } else {
                        proof {
                            assert(parts =~= Seq::<Seq<char>>::empty());
                        }
                        None
                    };
                    let ghost sts_v = states_view(sts@);
                    let mut new_states: Vec<State> = Vec::new();
                    let mut rest = sts;
                    proof {
                        assert(states_view(rest@) =~= sts_v.skip(0));
                        assert(states_view(new_states@) =~= reprefix_states(parts, sts_v).take(0));
                    }
                    loop
                        invariant
                            rest@.len() <= sts_v.len(),
                            states_view(rest@) =~= sts_v.skip(sts_v.len() - rest@.len()),
                            states_view(new_states@) == reprefix_states(parts, sts_v).take(
                                sts_v.len() - rest@.len(),
                            ),
                            parts == file_prefix(file@.segments),
                            match prefix_str {
                                Some(p) => parts.len() > 0 && p@ == join_segments(parts),
                                None => parts.len() == 0,
                            },
                        ensures
                            states_view(new_states@) == reprefix_states(parts, sts_v),
                        decreases rest@.len(),
                    {
                        if rest.len() == 0 {
                            proof {
                                assert(reprefix_states(parts, sts_v).take(sts_v.len() as int)
                                    =~= reprefix_states(parts, sts_v));
                            }
                            break;
                        }
                        let ghost k = sts_v.len() - rest@.len();
                        let ghost pre_rest = rest@;
                        let st = rest.remove(0);
                        proof {
                            assert(st@ == states_view(pre_rest)[0]);
                            assert(st@ == sts_v[k]);
                            assert(rest@ =~= pre_rest.skip(1));
                            assert forall|q: int| 0 <= q < rest@.len() implies states_view(
                                rest@,
                            )[q] == sts_v[k + 1 + q] by {
                                assert(rest@[q] == pre_rest[q + 1]);
                                assert(states_view(pre_rest)[q + 1] == pre_rest[q + 1]@);
                            }
                            assert(states_view(rest@) =~= sts_v.skip(k + 1));
                        }
                        let State { id, arrows, description } = st;
                        let full: String = match &prefix_str {
                            Some(p) => join_str(p.as_str(), id.0.as_str()),
                            None => id.0,
                        };
                        proof {
                            assert(full@ == prefixed_id(parts, sts_v[k].id));
                        }
                        let new_st = State::with_description(full.as_str(), arrows, description);
                        let ghost pre_new = states_view(new_states@);
                        new_states.push(new_st);
                        proof {
                            assert(new_st@ == reprefix_state(parts, sts_v[k]));
                            assert(states_view(new_states@) =~= pre_new.push(
                                reprefix_state(parts, sts_v[k]),
                            ));
                            assert(reprefix_states(parts, sts_v).take(k + 1) =~= reprefix_states(
                                parts,
                                sts_v,
                            ).take(k).push(reprefix_state(parts, sts_v[k])));
                        }
                    }
                    assoc_push(&mut by_machine, machine_name, new_states);
                },
            }
        }
        proof {
            assert(walk_files(fv.take(i + 1)) == Ok::<AccV, StateFileParseErrorV>(
                (AccV {
                    default_states: states_view(states_default@),
                    by_machine: assoc_view(by_machine@),
                }),
            ));
        }
        i = i + 1;
    }
    let ghost assoc_final = assoc_view(by_machine@);
    let mut machines: Vec<Machine> = Vec::new();
    let mut entries = by_machine;
    proof {
        assert(assoc_view(entries@) =~= assoc_final.skip(0));
        assert(machines_view(machines@) =~= machines_of(assoc_final).take(0));
    }
    loop
        invariant
            entries@.len() <= assoc_final.len(),
            assoc_view(entries@) =~= assoc_final.skip(assoc_final.len() - entries@.len()),
            machines_view(machines@) == machines_of(assoc_final).take(
                assoc_final.len() - entries@.len(),
            ),
        ensures
            machines_view(machines@) == machines_of(assoc_final),
        decreases entries@.len(),
    {
        if entries.len() == 0 {
            proof {
                assert(machines_of(assoc_final).take(assoc_final.len() as int) =~= machines_of(
                    assoc_final,
                ));
            }
            break;
        }
        let ghost k = assoc_final.len() - entries@.len();
        let ghost pre_entries = entries@;
        let entry = entries.remove(0);
        proof {
            assert((entry.0@, states_view(entry.1@)) == assoc_view(pre_entries)[0]);
            assert((entry.0@, states_view(entry.1@)) == assoc_final[k]);
            assert(entries@ =~= pre_entries.skip(1));
            assert forall|q: int| 0 <= q < entries@.len() implies assoc_view(entries@)[q]
                == assoc_final[k + 1 + q] by {
                assert(entries@[q] == pre_entries[q + 1]);
                assert(assoc_view(pre_entries)[q + 1] == (pre_entries[q + 1].0@, states_view(
                    pre_entries[q + 1].1@,
                )));
            }
            assert(assoc_view(entries@) =~= assoc_final.skip(k + 1));
        }
        let m = Machine::new(entry.0.as_str(), entry.1);
        let ghost pre_machines = machines_view(machines@);
        machines.push(m);
        proof {
            assert(m@ == machines_of(assoc_final)[k]);
            assert(machines_view(machines@) =~= pre_machines.push(machines_of(assoc_final)[k]));
            assert(machines_of(assoc_final).take(k + 1) =~= machines_of(assoc_final).take(k).push(
                machines_of(assoc_final)[k],
            ));
        }
    }
    let default_machine = Machine::new("default", states_default);
    let ghost pre_machines = machines_view(machines@);
    machines.push(default_machine);
    proof {
        assert(machines_view(machines@) =~= pre_machines.push(default_machine@));
    }
    Ok(machines)
}

/// Compiles an in-memory file listing into machines, under the given
/// directory layout.
pub fn to_machines(files: &Vec<SourceFile>, format: Format) -> (r: Result<
    Vec<Machine>,
    MachinesError,
>)
    ensures
        match r {
            Ok(ms) => compile_spec(files_view(files@)) == Ok::<Seq<MachineV>, StateFileParseErrorV>(
                machines_view(ms@),
            ),
            Err(e) => compile_spec(files_view(files@)) == Err::<
                Seq<MachineV>,
                StateFileParseErrorV,
            >(e@),
        },
{
    match format {
        Format::NestedMachines => match nested_machines_from_filesystem(files) {
            Ok(ms) => Ok(ms),
            Err(e) => Err(MachinesError::NestedMachines(e)),
        },
    }
}

} // verus!
