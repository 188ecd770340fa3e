//! Properties of the compiler, stated and proved over its specification.

use vstd::prelude::*;
use crate::ids::{count_key, count_value, lemma_sort_le_counts, lemma_counts_of_unique,
    lemma_count_value_at, lemma_sort_le_all, sorted_by_key, lemma_sort_le_sorted};
use crate::model::{ArrowV, StateV, MachineV, sort_arrows, sort_states, sort_machines, arrow_key,
    state_key, machine_key};
use crate::errors::{StateFileFormat, StateYAMLFileParseErrorV, StateFileParseErrorV};
use crate::yaml::{Yaml, yaml_parse_of};
use crate::document::{sniff_spec, parse_state_spec, parse_tree_spec};
use crate::tree::{TreeV, join2, node_full_id, child_arrow, node_arrows, node_state,
    flatten_node, flatten_siblings, flatten_tree_spec};
use crate::compile::{FileV, AccV, extension_of, file_states, sniffed_states, walk_files,
    compile_spec, machines_of, file_prefix, join_segments, reprefix_state, reprefix_states,
    assoc_add};

verus! {

/// Compiling the same file listing twice yields the same machine
/// collection: the compile is a function of its input, and both runs meet
/// the one contract.
pub proof fn lemma_compile_deterministic(
    files: Seq<FileV>,
    r1: Result<Seq<MachineV>, StateFileParseErrorV>,
    r2: Result<Seq<MachineV>, StateFileParseErrorV>,
)
    requires
        r1 == compile_spec(files),
        r2 == compile_spec(files),
    ensures
        r1 == r2,
{
}

/// A document whose top-level keys match no known schema fails with the
/// unknown-schema error: it never becomes a silent empty result.
pub proof fn lemma_unknown_schema_fails(path_text: Seq<char>, doc: Yaml, machine_id: Seq<char>)
    requires
        sniff_spec(doc) == StateFileFormat::Unknown,
    ensures
        sniffed_states(path_text, doc, machine_id) == Err::<Seq<StateV>, StateYAMLFileParseErrorV>(
            StateYAMLFileParseErrorV::UnknownFormat,
        ),
{
}

/// A file bearing an extension other than `.yaml`, such as `.txt`, fails
/// with the unsupported-extension error, wherever it stands.
pub proof fn lemma_unsupported_extension_fails(f: FileV, machine_id: Seq<char>)
    requires
        f.segments.len() >= 1,
        extension_of(f.segments.last()) == Some("txt"@),
    ensures
        file_states(f, machine_id) == Err::<Seq<StateV>, StateFileParseErrorV>(
            StateFileParseErrorV::UnsupportedExtension,
        ),
        compile_spec(seq![f]) == Err::<Seq<MachineV>, StateFileParseErrorV>(
            StateFileParseErrorV::UnsupportedExtension,
        ),
{
    reveal_strlit("txt");
    reveal_strlit("yaml");
    assert("txt"@.len() == 3);
    assert("yaml"@.len() == 4);
    assert("txt"@ != "yaml"@);
    let one = seq![f];
    assert(one.drop_last() =~= Seq::<FileV>::empty());
    assert(one.last() == f);
    assert(walk_files(one.drop_last()) == Ok::<AccV, StateFileParseErrorV>(
        (AccV { default_states: Seq::empty(), by_machine: Seq::empty() }),
    ));
}

/// A file directly under the root, one path segment deep, contributes its
/// states to the machine `default`, with no directory-derived prefix on
/// their ids.
pub proof fn lemma_default_position(f: FileV)
    requires
        f.segments.len() == 1,
        file_states(f, "default"@) is Ok,
    ensures
        walk_files(seq![f]) == Ok::<AccV, StateFileParseErrorV>(
            (AccV {
                default_states: file_states(f, "default"@)->Ok_0,
                by_machine: Seq::empty(),
            }),
        ),
        compile_spec(seq![f]) == Ok::<Seq<MachineV>, StateFileParseErrorV>(
            seq![
                MachineV {
                    id: "default"@,
                    states: sort_states(file_states(f, "default"@)->Ok_0),
                },
            ],
        ),
{
    let one = seq![f];
    assert(one.drop_last() =~= Seq::<FileV>::empty());
    assert(one.last() == f);
    let empty_acc = AccV { default_states: Seq::empty(), by_machine: Seq::empty() };
    assert(walk_files(one.drop_last()) == Ok::<AccV, StateFileParseErrorV>(empty_acc));
    let sts = file_states(f, "default"@)->Ok_0;
    assert(Seq::<StateV>::empty() + sts =~= sts);
    assert(machines_of(Seq::empty()) =~= Seq::<MachineV>::empty());
    assert(machines_of(Seq::empty()).push(
        MachineV { id: "default"@, states: sort_states(sts) },
    ) =~= seq![MachineV { id: "default"@, states: sort_states(sts) }]);
}

/// In a file listing where every file lies directly under the root, only the
/// `default` machine ever receives states.
pub proof fn lemma_all_default_position(files: Seq<FileV>)
    requires
        forall|i: int| 0 <= i < files.len() ==> (#[trigger] files[i]).segments.len() == 1,
    ensures
        walk_files(files) is Ok ==> walk_files(files)->Ok_0.by_machine == Seq::<
            (Seq<char>, Seq<StateV>),
        >::empty(),
    decreases files.len(),
{
    if files.len() > 0 {
        assert(forall|i: int| 0 <= i < files.drop_last().len() ==> (#[trigger] files.drop_last()[
            i
        ]).segments.len() == 1);
        lemma_all_default_position(files.drop_last());
        assert(files.last() == files[files.len() - 1]);
    }
}

/// A leaf child collapses into an arrow, not a state: the root state of the
/// flattening carries exactly one arrow bearing the leaf's label, it targets
/// the fixed root state id `machine_id + "/" + root.id`, and the leaf
/// contributes no state of its own: the flattening equals the root state
/// followed by the expansions of the other, non-leaf children alone.
pub proof fn lemma_leaf_collapse(machine_id: Seq<char>, t: TreeV, i: int)
    requires
        0 <= i < t.tree.len(),
        t.tree[i].tree.len() == 0,
        forall|j: int| 0 <= j < t.tree.len() && j != i ==> (#[trigger] t.tree[j]).id != t.tree[i].id,
    ensures
        ({
            let states = flatten_tree_spec(machine_id, t);
            let root_id = join2(machine_id, t.id);
            let label = t.tree[i].id;
            let collapse = ArrowV { id: label, next: root_id, description: None };
            states.len() >= 1 && states[0] == node_state(machine_id, root_id, t.id, t)
            && count_key(states[0].arrows, arrow_key(), label) == 1
            && count_value(states[0].arrows, collapse) == 1
            && states == seq![states[0]] + flatten_siblings(machine_id, root_id, t.id, t.tree)
            && flatten_siblings(machine_id, root_id, t.id, t.tree) == flatten_siblings(
                machine_id,
                root_id,
                t.id,
                t.tree.remove(i),
            )
        }),
{
    let root_id = join2(machine_id, t.id);
    let label = t.tree[i].id;
    let collapse = ArrowV { id: label, next: root_id, description: None };
    let states = flatten_tree_spec(machine_id, t);
    assert(node_full_id(Seq::empty(), t.id) == t.id);
    assert(states == seq![node_state(machine_id, root_id, t.id, t)] + flatten_siblings(
        machine_id,
        root_id,
        t.id,
        t.tree,
    ));
    assert(states[0] == node_state(machine_id, root_id, t.id, t));
    let na = node_arrows(machine_id, root_id, t.id, t.tree);
    assert(na[i] == child_arrow(machine_id, root_id, t.id, t.tree[i]));
    assert(na[i] == collapse);
    assert forall|j: int| 0 <= j < na.len() && j != i implies arrow_key()(#[trigger] na[j])
        != label by {
        assert(na[j] == child_arrow(machine_id, root_id, t.id, t.tree[j]));
        assert(na[j].id == t.tree[j].id);
    }
    lemma_counts_of_unique(na, arrow_key(), label, collapse, i);
    lemma_sort_le_counts(na, arrow_key(), label, collapse);
    assert(states[0].arrows == sort_arrows(na));
    lemma_siblings_skip_leaf(machine_id, root_id, t.id, t.tree, i);
}

/// A leaf member of a child list contributes nothing to the expanded
/// siblings.
pub proof fn lemma_siblings_skip_leaf(
    machine_id: Seq<char>,
    root_id: Seq<char>,
    parent_id: Seq<char>,
    children: Seq<TreeV>,
    i: int,
)
    requires
        0 <= i < children.len(),
        children[i].tree.len() == 0,
    ensures
        flatten_siblings(machine_id, root_id, parent_id, children) == flatten_siblings(
            machine_id,
            root_id,
            parent_id,
            children.remove(i),
        ),
    decreases children.len(),
{
    let rest = children.subrange(0, children.len() - 1);
    if i == children.len() - 1 {
        assert(children.remove(i) =~= rest);
        assert(flatten_siblings(machine_id, root_id, parent_id, children) == Seq::<
            StateV,
        >::empty() + flatten_siblings(machine_id, root_id, parent_id, rest));
        assert(Seq::<StateV>::empty() + flatten_siblings(machine_id, root_id, parent_id, rest)
            =~= flatten_siblings(machine_id, root_id, parent_id, rest));
    } else {
        lemma_siblings_skip_leaf(machine_id, root_id, parent_id, rest, i);
        let removed = children.remove(i);
        assert(removed.len() == children.len() - 1);
        assert(removed[removed.len() - 1] == children[children.len() - 1]);
        assert(removed.subrange(0, removed.len() - 1) =~= rest.remove(i));
        assert(flatten_siblings(machine_id, root_id, parent_id, removed) == (if children[
            children.len() - 1
        ].tree.len() == 0 {
            Seq::<StateV>::empty()
        } else {
            flatten_node(machine_id, root_id, parent_id, children[children.len() - 1])
        }) + flatten_siblings(machine_id, root_id, parent_id, rest.remove(i)));
    }
}

/// A non-leaf child under a node with full id `P` yields an arrow labeled
/// with the child's id targeting `machine_id + "/" + P + "/" + child.id`,
/// and, further on, a state of its own with id `P + "/" + child.id`.
pub proof fn lemma_nonleaf_expands(
    machine_id: Seq<char>,
    root_id: Seq<char>,
    prefix: Seq<char>,
    node: TreeV,
    i: int,
)
    requires
        0 <= i < node.tree.len(),
        node.tree[i].tree.len() > 0,
        node_full_id(prefix, node.id).len() > 0,
    ensures
        ({
            let states = flatten_node(machine_id, root_id, prefix, node);
            let p = node_full_id(prefix, node.id);
            let c = node.tree[i].id;
            let arrow = ArrowV {
                id: c,
                next: join2(join2(machine_id, p), c),
                description: None,
            };
            states.len() >= 1 && states[0] == node_state(machine_id, root_id, p, node)
            && count_value(states[0].arrows, arrow) >= 1
            && exists|k: int|
                1 <= k < states.len() && (#[trigger] states[k]).id == join2(p, c)
        }),
{
    let states = flatten_node(machine_id, root_id, prefix, node);
    let p = node_full_id(prefix, node.id);
    let c = node.tree[i].id;
    let arrow = ArrowV { id: c, next: join2(join2(machine_id, p), c), description: None };
    assert(states == seq![node_state(machine_id, root_id, p, node)] + flatten_siblings(
        machine_id,
        root_id,
        p,
        node.tree,
    ));
    assert(states[0] == node_state(machine_id, root_id, p, node));
    let na = node_arrows(machine_id, root_id, p, node.tree);
    assert(na[i] == child_arrow(machine_id, root_id, p, node.tree[i]));
    assert(na[i] == arrow);
    lemma_count_value_at(na, arrow, i);
    lemma_sort_le_counts(na, arrow_key(), arrow.id, arrow);
    assert(states[0].arrows == sort_arrows(na));
    lemma_siblings_contain(machine_id, root_id, p, node.tree, i);
    let k = choose|k: int|
        0 <= k < flatten_siblings(machine_id, root_id, p, node.tree).len() && (#[trigger]
        flatten_siblings(machine_id, root_id, p, node.tree)[k]).id == join2(p, c);
    assert(states[k + 1].id == join2(p, c));
}

/// The expanded siblings contain, for each non-leaf child, a state whose id
/// joins the parent's full id and the child's id.
pub proof fn lemma_siblings_contain(
    machine_id: Seq<char>,
    root_id: Seq<char>,
    parent_id: Seq<char>,
    children: Seq<TreeV>,
    i: int,
)
    requires
        0 <= i < children.len(),
        children[i].tree.len() > 0,
        parent_id.len() > 0,
    ensures
        exists|k: int|
            0 <= k < flatten_siblings(machine_id, root_id, parent_id, children).len()
                && (#[trigger] flatten_siblings(machine_id, root_id, parent_id, children)[k]).id
                == join2(parent_id, children[i].id),
    decreases children.len(),
{
    let rest = children.subrange(0, children.len() - 1);
    let whole = flatten_siblings(machine_id, root_id, parent_id, children);
    if i == children.len() - 1 {
        let c = children[i];
        let sub = flatten_node(machine_id, root_id, parent_id, c);
        assert(whole == sub + flatten_siblings(machine_id, root_id, parent_id, rest));
        assert(sub[0] == node_state(machine_id, root_id, node_full_id(parent_id, c.id), c));
        assert(whole[0].id == join2(parent_id, c.id));
    } else {
        lemma_siblings_contain(machine_id, root_id, parent_id, rest, i);
        let head = (if children[children.len() - 1].tree.len() == 0 {
            Seq::<StateV>::empty()
        } else {
            flatten_node(machine_id, root_id, parent_id, children[children.len() - 1])
        });
        assert(whole == head + flatten_siblings(machine_id, root_id, parent_id, rest));
        let k = choose|k: int|
            0 <= k < flatten_siblings(machine_id, root_id, parent_id, rest).len() && (#[trigger]
            flatten_siblings(machine_id, root_id, parent_id, rest)[k]).id == join2(
                parent_id,
                rest[i].id,
            );
        assert(whole[head.len() + k].id == join2(parent_id, children[i].id));
    }
}

/// A well-formed hierarchical identifier: a nonempty `/`-joined string with
/// no empty segments.
pub open spec fn valid_id(s: Seq<char>) -> bool {
    s.len() > 0 && s[0] != '/' && s[s.len() - 1] != '/' && forall|i: int|
        0 <= i < s.len() - 1 ==> !((#[trigger] s[i]) == '/' && s[i + 1] == '/')
}

/// Joining two well-formed identifiers with `/` yields a well-formed one.
pub proof fn lemma_join2_valid(a: Seq<char>, b: Seq<char>)
    requires
        valid_id(a),
        valid_id(b),
    ensures
        valid_id(join2(a, b)),
{
    let j = join2(a, b);
    assert(j.len() == a.len() + 1 + b.len());
    assert(j[0] == a[0]);
    assert(j[j.len() - 1] == b[b.len() - 1]);
    assert forall|i: int| 0 <= i < j.len() - 1 implies !((#[trigger] j[i]) == '/' && j[i + 1]
        == '/') by {
        if i < a.len() - 1 {
            assert(j[i] == a[i]);
            assert(j[i + 1] == a[i + 1]);
        } else if i == a.len() - 1 {
            assert(j[i] == a[i]);
        } else if i == a.len() {
            assert(j[i + 1] == b[0]);
        } else {
            assert(j[i] == b[i - a.len() - 1]);
            assert(j[i + 1] == b[i - a.len()]);
        }
    }
}

/// An arrow whose target is a well-formed identifier.
pub open spec fn arrow_ok(a: ArrowV) -> bool {
    valid_id(a.next)
}

/// A state whose id and arrow targets are well-formed identifiers.
pub open spec fn state_ok(st: StateV) -> bool {
    valid_id(st.id) && forall|k: int| 0 <= k < st.arrows.len() ==> arrow_ok(#[trigger] st.arrows[k])
}

/// A machine whose id, state ids and arrow targets are well-formed.
pub open spec fn machine_ok(mv: MachineV) -> bool {
    valid_id(mv.id) && forall|k: int| 0 <= k < mv.states.len() ==> state_ok(#[trigger] mv.states[k])
}

/// A tree document all of whose node ids are well-formed identifiers.
pub open spec fn tree_ids_valid(t: TreeV) -> bool
    decreases t,
{
    valid_id(t.id) && forall|i: int| 0 <= i < t.tree.len() ==> tree_ids_valid(#[trigger] t.tree[i])
}

/// Flattening a tree with well-formed node ids under well-formed machine and
/// root ids emits only well-formed states.
pub proof fn lemma_flatten_node_ok(m: Seq<char>, root_id: Seq<char>, prefix: Seq<char>, node: TreeV)
    requires
        valid_id(m),
        valid_id(root_id),
        prefix.len() == 0 || valid_id(prefix),
        tree_ids_valid(node),
    ensures
        forall|k: int| 0 <= k < flatten_node(m, root_id, prefix, node).len() ==> state_ok(
            #[trigger] flatten_node(m, root_id, prefix, node)[k],
        ),
    decreases node,
{
    let full = node_full_id(prefix, node.id);
    if prefix.len() == 0 {
        assert(full == node.id);
    } else {
        lemma_join2_valid(prefix, node.id);
    }
    assert(valid_id(full));
    let na = node_arrows(m, root_id, full, node.tree);
    assert forall|j: int| 0 <= j < na.len() implies arrow_ok(#[trigger] na[j]) by {
        assert(na[j] == child_arrow(m, root_id, full, node.tree[j]));
        assert(tree_ids_valid(node.tree[j]));
        if node.tree[j].tree.len() > 0 {
            lemma_join2_valid(m, full);
            lemma_join2_valid(join2(m, full), node.tree[j].id);
        }
    }
    lemma_sort_le_all(na, arrow_key(), |a: ArrowV| arrow_ok(a));
    let st = node_state(m, root_id, full, node);
    assert(st.arrows == sort_arrows(na));
    assert forall|k: int| 0 <= k < st.arrows.len() implies arrow_ok(#[trigger] st.arrows[k]) by {
        assert((|a: ArrowV| arrow_ok(a))(st.arrows[k]));
    }
    assert(state_ok(st));
    lemma_flatten_siblings_ok(m, root_id, full, node.tree);
    let states = flatten_node(m, root_id, prefix, node);
    let sibs = flatten_siblings(m, root_id, full, node.tree);
    assert(states == seq![st] + sibs);
    assert forall|k: int| 0 <= k < states.len() implies state_ok(#[trigger] states[k]) by {
        if k == 0 {
            assert(states[k] == st);
        } else {
            assert(states[k] == sibs[k - 1]);
        }
    }
}

/// The expansions of a child list's non-leaf members emit only well-formed
/// states, under a well-formed parent full id.
pub proof fn lemma_flatten_siblings_ok(
    m: Seq<char>,
    root_id: Seq<char>,
    parent_id: Seq<char>,
    children: Seq<TreeV>,
)
    requires
        valid_id(m),
        valid_id(root_id),
        valid_id(parent_id),
        forall|i: int| 0 <= i < children.len() ==> tree_ids_valid(#[trigger] children[i]),
    ensures
        forall|k: int| 0 <= k < flatten_siblings(m, root_id, parent_id, children).len()
            ==> state_ok(#[trigger] flatten_siblings(m, root_id, parent_id, children)[k]),
    decreases children,
{
    if children.len() > 0 {
        let rest = children.subrange(0, children.len() - 1);
        assert forall|i: int| 0 <= i < rest.len() implies tree_ids_valid(#[trigger] rest[i]) by {
            assert(rest[i] == children[i]);
        }
        lemma_flatten_siblings_ok(m, root_id, parent_id, rest);
        let c = children[children.len() - 1];
        let head = (if c.tree.len() == 0 {
            Seq::<StateV>::empty()
        } else {
            flatten_node(m, root_id, parent_id, c)
        });
        if c.tree.len() > 0 {
            assert(tree_ids_valid(c));
            lemma_flatten_node_ok(m, root_id, parent_id, c);
        }
        let whole = flatten_siblings(m, root_id, parent_id, children);
        let tail = flatten_siblings(m, root_id, parent_id, rest);
        assert(whole == head + tail);
        assert forall|k: int| 0 <= k < whole.len() implies state_ok(#[trigger] whole[k]) by {
            if k < head.len() {
                assert(whole[k] == head[k]);
            } else {
                assert(whole[k] == tail[k - head.len()]);
            }
        }
    }
}

/// A parsed document all of whose ids and arrow targets are well-formed, as
/// far as the schema it will be read under looks at them.
pub open spec fn doc_ids_ok(doc: Yaml) -> bool {
    match sniff_spec(doc) {
        StateFileFormat::State => parse_state_spec(doc) is Ok ==> (valid_id(
            (parse_state_spec(doc)->Ok_0).0,
        ) && forall|k: int|
            0 <= k < (parse_state_spec(doc)->Ok_0).1.len() ==> arrow_ok(
                #[trigger] (parse_state_spec(doc)->Ok_0).1[k],
            )),
        StateFileFormat::Tree => parse_tree_spec(doc) is Ok ==> tree_ids_valid(
            parse_tree_spec(doc)->Ok_0,
        ),
        _ => true,
    }
}

/// A file whose path segments are well-formed identifiers and whose parsed
/// document, if it parses, carries well-formed ids.
pub open spec fn file_ok(f: FileV) -> bool {
    f.segments.len() >= 1 && (forall|i: int|
        0 <= i < f.segments.len() ==> valid_id(#[trigger] f.segments[i])) && (match f.content {
        Ok(bytes) => (match yaml_parse_of(bytes) {
            Ok(doc) => doc_ids_ok(doc),
            Err(_) => true,
        }),
        Err(_) => true,
    })
}

/// The literal `default` is a well-formed identifier.
pub proof fn lemma_default_valid()
    ensures
        valid_id("default"@),
{
    reveal_strlit("default");
    assert("default"@.len() == 7);
    assert("default"@[0] == 'd');
    assert("default"@[6] == 't');
    assert forall|i: int| 0 <= i < 6 implies !((#[trigger] "default"@[i]) == '/' && "default"@[i
        + 1] == '/') by {
        assert("default"@[1] == 'e');
        assert("default"@[2] == 'f');
        assert("default"@[3] == 'a');
        assert("default"@[4] == 'u');
        assert("default"@[5] == 'l');
    }
}

/// The states a well-formed file yields are well-formed.
pub proof fn lemma_file_states_ok(f: FileV, m: Seq<char>)
    requires
        file_ok(f),
        valid_id(m),
    ensures
        file_states(f, m) is Ok ==> forall|k: int|
            0 <= k < (file_states(f, m)->Ok_0).len() ==> state_ok(
                #[trigger] (file_states(f, m)->Ok_0)[k],
            ),
{
    if file_states(f, m) is Ok {
        let bytes = f.content->Ok_0;
        let doc = yaml_parse_of(bytes)->Ok_0;
        let sts = file_states(f, m)->Ok_0;
        assert(sniffed_states(f.path_text, doc, m) == Ok::<Seq<StateV>, StateYAMLFileParseErrorV>(
            sts,
        ));
        match sniff_spec(doc) {
            StateFileFormat::State => {
                let p = parse_state_spec(doc)->Ok_0;
                lemma_sort_le_all(p.1, arrow_key(), |a: ArrowV| arrow_ok(a));
                let st = StateV { id: p.0, arrows: sort_arrows(p.1), description: p.2 };
                assert forall|k: int| 0 <= k < st.arrows.len() implies arrow_ok(
                    #[trigger] st.arrows[k],
                ) by {
                    assert((|a: ArrowV| arrow_ok(a))(st.arrows[k]));
                }
                assert(state_ok(st));
                assert(sts == seq![st]);
            },
            StateFileFormat::Tree => {
                let t = parse_tree_spec(doc)->Ok_0;
                assert(tree_ids_valid(t));
                assert(valid_id(t.id));
                lemma_join2_valid(m, t.id);
                lemma_flatten_node_ok(m, join2(m, t.id), Seq::empty(), t);
                assert(sts == flatten_node(m, join2(m, t.id), Seq::empty(), t));
            },
            StateFileFormat::StateList => {
                assert(sts =~= Seq::<StateV>::empty());
            },
            StateFileFormat::Unknown => {
                assert(false);
            },
        }
    }
}

/// A machine entry whose id and states are well-formed.
pub open spec fn entry_ok(e: (Seq<char>, Seq<StateV>)) -> bool {
    valid_id(e.0) && forall|k: int| 0 <= k < e.1.len() ==> state_ok(#[trigger] e.1[k])
}

/// An accumulator all of whose states and entries are well-formed.
pub open spec fn acc_ok(acc: AccV) -> bool {
    (forall|k: int| 0 <= k < acc.default_states.len() ==> state_ok(
        #[trigger] acc.default_states[k],
    )) && forall|k: int| 0 <= k < acc.by_machine.len() ==> entry_ok(#[trigger] acc.by_machine[k])
}

/// Adding well-formed states under a well-formed key keeps every entry
/// well-formed.
pub proof fn lemma_assoc_add_ok(
    assoc: Seq<(Seq<char>, Seq<StateV>)>,
    key: Seq<char>,
    states: Seq<StateV>,
)
    requires
        forall|k: int| 0 <= k < assoc.len() ==> entry_ok(#[trigger] assoc[k]),
        valid_id(key),
        forall|k: int| 0 <= k < states.len() ==> state_ok(#[trigger] states[k]),
    ensures
        forall|k: int| 0 <= k < assoc_add(assoc, key, states).len() ==> entry_ok(
            #[trigger] assoc_add(assoc, key, states)[k],
        ),
    decreases assoc.len(),
{
    let out = assoc_add(assoc, key, states);
    if assoc.len() == 0 {
        assert(out == seq![(key, states)]);
        assert(entry_ok(out[0]));
    } else if assoc.first().0 == key {
        let merged = (assoc.first().0, assoc.first().1 + states);
        assert forall|k: int| 0 <= k < merged.1.len() implies state_ok(#[trigger] merged.1[k]) by {
            assert(entry_ok(assoc[0]));
            if k < assoc.first().1.len() {
                assert(merged.1[k] == assoc[0].1[k]);
            } else {
                assert(merged.1[k] == states[k - assoc.first().1.len()]);
            }
        }
        assert(entry_ok(merged));
        assert(out == seq![merged] + assoc.drop_first());
        assert forall|k: int| 0 <= k < out.len() implies entry_ok(#[trigger] out[k]) by {
            if k == 0 {
                assert(out[k] == merged);
            } else {
                assert(out[k] == assoc[k]);
            }
        }
    } else {
        assert forall|k: int| 0 <= k < assoc.drop_first().len() implies entry_ok(
            #[trigger] assoc.drop_first()[k],
        ) by {
            assert(assoc.drop_first()[k] == assoc[k + 1]);
        }
        lemma_assoc_add_ok(assoc.drop_first(), key, states);
        assert(out == seq![assoc.first()] + assoc_add(assoc.drop_first(), key, states));
        assert forall|k: int| 0 <= k < out.len() implies entry_ok(#[trigger] out[k]) by {
            if k == 0 {
                assert(out[k] == assoc[0]);
            } else {
                assert(out[k] == assoc_add(assoc.drop_first(), key, states)[k - 1]);
            }
        }
    }
}

/// Joining well-formed segments keeps the result well-formed.
pub proof fn lemma_join_segments_valid(parts: Seq<Seq<char>>)
    requires
        parts.len() > 0,
        forall|i: int| 0 <= i < parts.len() ==> valid_id(#[trigger] parts[i]),
    ensures
        valid_id(join_segments(parts)),
    decreases parts.len(),
{
    if parts.len() > 1 {
        assert forall|i: int| 0 <= i < parts.drop_last().len() implies valid_id(
            #[trigger] parts.drop_last()[i],
        ) by {
            assert(parts.drop_last()[i] == parts[i]);
        }
        lemma_join_segments_valid(parts.drop_last());
        lemma_join2_valid(join_segments(parts.drop_last()), parts.last());
    }
}

/// Rebuilding well-formed states under a well-formed prefix keeps them
/// well-formed.
pub proof fn lemma_reprefix_ok(parts: Seq<Seq<char>>, sts: Seq<StateV>)
    requires
        forall|i: int| 0 <= i < parts.len() ==> valid_id(#[trigger] parts[i]),
        forall|k: int| 0 <= k < sts.len() ==> state_ok(#[trigger] sts[k]),
    ensures
        forall|k: int| 0 <= k < reprefix_states(parts, sts).len() ==> state_ok(
            #[trigger] reprefix_states(parts, sts)[k],
        ),
{
    assert forall|k: int| 0 <= k < reprefix_states(parts, sts).len() implies state_ok(
        #[trigger] reprefix_states(parts, sts)[k],
    ) by {
        let st = sts[k];
        assert(state_ok(st));
        let re = reprefix_state(parts, st);
        if parts.len() > 0 {
            lemma_join_segments_valid(parts);
            lemma_join2_valid(join_segments(parts), st.id);
        }
        lemma_sort_le_all(st.arrows, arrow_key(), |a: ArrowV| arrow_ok(a));
        assert forall|q: int| 0 <= q < re.arrows.len() implies arrow_ok(#[trigger] re.arrows[q]) by {
            assert((|a: ArrowV| arrow_ok(a))(re.arrows[q]));
        }
        assert(reprefix_states(parts, sts)[k] == re);
    }
}

/// Folding well-formed files keeps the accumulator well-formed.
pub proof fn lemma_walk_files_ok(files: Seq<FileV>)
    requires
        forall|i: int| 0 <= i < files.len() ==> file_ok(#[trigger] files[i]),
    ensures
        walk_files(files) is Ok ==> acc_ok(walk_files(files)->Ok_0),
    decreases files.len(),
{
    if files.len() == 0 {
    } else {
        assert forall|i: int| 0 <= i < files.drop_last().len() implies file_ok(
            #[trigger] files.drop_last()[i],
        ) by {
            assert(files.drop_last()[i] == files[i]);
        }
        lemma_walk_files_ok(files.drop_last());
        if walk_files(files) is Ok {
            let acc = walk_files(files.drop_last())->Ok_0;
            let f = files.last();
            assert(file_ok(f));
            assert(acc_ok(acc));
            if f.segments.len() == 1 {
                lemma_default_valid();
                lemma_file_states_ok(f, "default"@);
                let sts = file_states(f, "default"@)->Ok_0;
                let merged = acc.default_states + sts;
                assert forall|k: int| 0 <= k < merged.len() implies state_ok(
                    #[trigger] merged[k],
                ) by {
                    if k < acc.default_states.len() {
                        assert(merged[k] == acc.default_states[k]);
                    } else {
                        assert(merged[k] == sts[k - acc.default_states.len()]);
                    }
                }
            } else {
                let mid = f.segments[0];
                assert(valid_id(mid));
                lemma_file_states_ok(f, mid);
                let sts = file_states(f, mid)->Ok_0;
                let parts = file_prefix(f.segments);
                assert forall|i: int| 0 <= i < parts.len() implies valid_id(
                    #[trigger] parts[i],
                ) by {
                    assert(parts[i] == f.segments[i + 1]);
                }
                lemma_reprefix_ok(parts, sts);
                lemma_assoc_add_ok(acc.by_machine, mid, reprefix_states(parts, sts));
            }
        }
    }
}

/// Every identifier a successful compile produces is a nonempty `/`-joined
/// string with no empty segments: machine ids, state ids, and arrow targets
/// alike, given files whose path segments and document ids are themselves
/// well-formed.
pub proof fn lemma_compile_ids_wellformed(files: Seq<FileV>)
    requires
        forall|i: int| 0 <= i < files.len() ==> file_ok(#[trigger] files[i]),
    ensures
        compile_spec(files) is Ok ==> forall|k: int|
            0 <= k < (compile_spec(files)->Ok_0).len() ==> machine_ok(
                #[trigger] (compile_spec(files)->Ok_0)[k],
            ),
{
    lemma_walk_files_ok(files);
    if compile_spec(files) is Ok {
        let acc = walk_files(files)->Ok_0;
        let ms = compile_spec(files)->Ok_0;
        let named = machines_of(acc.by_machine);
        lemma_default_valid();
        assert forall|k: int| 0 <= k < ms.len() implies machine_ok(#[trigger] ms[k]) by {
            if k < named.len() {
                assert(ms[k] == named[k]);
                assert(entry_ok(acc.by_machine[k]));
                lemma_sort_le_all(acc.by_machine[k].1, state_key(), |s: StateV| state_ok(s));
                assert forall|q: int| 0 <= q < ms[k].states.len() implies state_ok(
                    #[trigger] ms[k].states[q],
                ) by {
                    assert((|s: StateV| state_ok(s))(ms[k].states[q]));
                }
            } else {
                assert(ms[k] == (MachineV {
                    id: "default"@,
                    states: sort_states(acc.default_states),
                }));
                lemma_sort_le_all(acc.default_states, state_key(), |s: StateV| state_ok(s));
                assert forall|q: int| 0 <= q < ms[k].states.len() implies state_ok(
                    #[trigger] ms[k].states[q],
                ) by {
                    assert((|s: StateV| state_ok(s))(ms[k].states[q]));
                }
            }
        }
    }
}

/// The ordering invariant of the model's constructors: the arrow sequence
/// of `State::new`, the state sequence of `Machine::new` and the machine
/// sequence of `Space::new` each come out ascending by id.
pub proof fn lemma_model_sequences_sorted(
    arrows: Seq<ArrowV>,
    states: Seq<StateV>,
    machines: Seq<MachineV>,
)
    ensures
        sorted_by_key(sort_arrows(arrows), arrow_key()),
        sorted_by_key(sort_states(states), state_key()),
        sorted_by_key(sort_machines(machines), machine_key()),
{
    lemma_sort_le_sorted(arrows, arrow_key());
    lemma_sort_le_sorted(states, state_key());
    lemma_sort_le_sorted(machines, machine_key());
}

} // verus!
