//! Tree documents and their flattening into flat states and arrows.
//!
//! A tree document nests states: a node holds a local id and child nodes of
//! the same shape.  Flattening emits one `State` per node visited, under
//! these identifier rules: the root state id is fixed up front as
//! `machine_id + "/" + root.id`; a node's full id joins its parent's full id
//! and its local id with `/`; a leaf child collapses into an arrow back to
//! the fixed root state id instead of becoming a state of its own; a
//! non-leaf child yields an arrow targeting
//! `machine_id + "/" + parent_full_id + "/" + child.id` and later a state of
//! its own.  The traversal uses an explicit worklist rather than native
//! recursion, so stack growth stays bounded for deep trees.

use vstd::prelude::*;
use vstd::string::*;
use crate::model::{Arrow, State, ArrowV, StateV, sort_arrows, arrows_view, states_view,
    opt_str_view};

verus! {

broadcast use vstd::std_specs::vec::axiom_vec_decreases_to_view, vstd::seq::axiom_seq_index_decreases, vstd::seq::axiom_seq_subrange_decreases;

/// One node of a tree document: a local id, child nodes, and an optional
/// description (validated on parse, dropped by flattening).
#[derive(Debug, PartialEq, Eq)]
pub struct StateTree {
    pub id: String,
    pub tree: Vec<StateTree>,
    pub description: Option<String>,
}

/// Mathematical value of a `StateTree`.
pub ghost struct TreeV {
    pub id: Seq<char>,
    pub tree: Seq<TreeV>,
    pub description: Option<Seq<char>>,
}

/// Mathematical value of an exec tree node, children included.
pub open spec fn tree_view(t: StateTree) -> TreeV
    decreases t,
{
    TreeV { id: t.id@, tree: trees_view(t.tree@), description: opt_str_view(t.description) }
}

/// Mathematical values of a sequence of exec tree nodes.
pub open spec fn trees_view(s: Seq<StateTree>) -> Seq<TreeV>
    decreases s,
{
    if s.len() == 0 {
        Seq::empty()
    } else {
        trees_view(s.subrange(0, s.len() - 1)).push(tree_view(s[s.len() - 1]))
    }
}

/// The path separator.
pub open spec fn slash() -> Seq<char> {
    seq!['/']
}

/// Two path segments joined with `/`.
pub open spec fn join2(a: Seq<char>, b: Seq<char>) -> Seq<char> {
    a + slash() + b
}

/// A node's full state id: its local id, under its parent's full id if it
/// has one.
pub open spec fn node_full_id(prefix: Seq<char>, id: Seq<char>) -> Seq<char> {
    if prefix.len() == 0 {
        id
    } else {
        join2(prefix, id)
    }
}

/// The arrow one child contributes to its parent's state.  A leaf child
/// points back at the tree's fixed root state; a non-leaf child points at
/// the state it will itself become.
pub open spec fn child_arrow(
    machine_id: Seq<char>,
    root_id: Seq<char>,
    parent_id: Seq<char>,
    c: TreeV,
) -> ArrowV {
    if c.tree.len() == 0 {
        ArrowV { id: c.id, next: root_id, description: None }
    } else {
        ArrowV { id: c.id, next: join2(join2(machine_id, parent_id), c.id), description: None }
    }
}

/// All arrows of the state a node becomes, in child order, before sorting.
pub open spec fn node_arrows(
    machine_id: Seq<char>,
    root_id: Seq<char>,
    parent_id: Seq<char>,
    children: Seq<TreeV>,
) -> Seq<ArrowV> {
    Seq::new(children.len(), |i: int| child_arrow(machine_id, root_id, parent_id, children[i]))
}

/// The state one node becomes: its full id and its children's arrows,
/// sorted as `State::new` sorts them.
pub open spec fn node_state(
    machine_id: Seq<char>,
    root_id: Seq<char>,
    full_id: Seq<char>,
    node: TreeV,
) -> StateV {
    StateV {
        id: full_id,
        arrows: sort_arrows(node_arrows(machine_id, root_id, full_id, node.tree)),
        description: None,
    }
}

/// The states a node and its descendants emit, in worklist order: the node's
/// own state first, then the subtrees of its non-leaf children from the last
/// child to the first.
pub open spec fn flatten_node(
    machine_id: Seq<char>,
    root_id: Seq<char>,
    prefix: Seq<char>,
    node: TreeV,
) -> Seq<StateV>
    decreases node,
{
    let full_id = node_full_id(prefix, node.id);
    seq![node_state(machine_id, root_id, full_id, node)] + flatten_siblings(
        machine_id,
        root_id,
        full_id,
        node.tree,
    )
}

/// The states the non-leaf members of a child list emit, last child first,
/// each expanded under its parent's full id as prefix.
pub open spec fn flatten_siblings(
    machine_id: Seq<char>,
    root_id: Seq<char>,
    parent_id: Seq<char>,
    children: Seq<TreeV>,
) -> Seq<StateV>
    decreases children,
{
    if children.len() == 0 {
        Seq::empty()
    } else {
        (if children[children.len() - 1].tree.len() == 0 {
            Seq::<StateV>::empty()
        } else {
            flatten_node(machine_id, root_id, parent_id, children[children.len() - 1])
        }) + flatten_siblings(machine_id, root_id, parent_id, children.subrange(0, children.len() - 1))
    }
}

/// Every state a tree document emits under its machine, root state first.
pub open spec fn flatten_tree_spec(machine_id: Seq<char>, root: TreeV) -> Seq<StateV> {
    flatten_node(machine_id, join2(machine_id, root.id), Seq::empty(), root)
}

/// Joins two path segments with `/`.
pub fn join_str(a: &str, b: &str) -> (r: String)
    ensures
        r@ == join2(a@, b@),
{
    proof {
        reveal_strlit("/");
        assert(("/")@ =~= slash());
    }
    let r = String::from_str(a).concat("/").concat(b);
    proof {
        assert(r@ =~= join2(a@, b@));
    }
    r
}

/// `trees_view` is the pointwise image of `tree_view`.
pub proof fn lemma_trees_view_index(s: Seq<StateTree>)
    ensures
        trees_view(s).len() == s.len(),
        forall|i: int| 0 <= i < s.len() ==> trees_view(s)[i] == tree_view(#[trigger] s[i]),
    decreases s.len(),
{
    if s.len() > 0 {
        lemma_trees_view_index(s.subrange(0, s.len() - 1));
        assert forall|i: int| 0 <= i < s.len() implies trees_view(s)[i] == tree_view(s[i]) by {
            if i < s.len() - 1 {
                assert(trees_view(s)[i] == trees_view(s.subrange(0, s.len() - 1))[i]);
                assert(s.subrange(0, s.len() - 1)[i] == s[i]);
            }
        }
    }
}

/// The worklist entries still to expand: each pairs a node with the full id
/// of its parent, used as prefix.
pub open spec fn stack_view(s: Seq<(StateTree, String)>) -> Seq<(TreeV, Seq<char>)> {
    Seq::new(s.len(), |i: int| (tree_view(s[i].0), s[i].1@))
}

/// The states the worklist still owes, in pop order: the top entry's whole
/// subtree first.
pub open spec fn work_left(
    machine_id: Seq<char>,
    root_id: Seq<char>,
    stack: Seq<(TreeV, Seq<char>)>,
) -> Seq<StateV>
    decreases stack.len(),
{
    if stack.len() == 0 {
        Seq::empty()
    } else {
        flatten_node(machine_id, root_id, stack.last().1, stack.last().0) + work_left(
            machine_id,
            root_id,
            stack.drop_last(),
        )
    }
}

/// The worklist entries a child list contributes: its non-leaf members in
/// order, each under the parent's full id.
pub open spec fn nonleaf_entries(children: Seq<TreeV>, parent_id: Seq<char>) -> Seq<
    (TreeV, Seq<char>),
>
    decreases children.len(),
{
    if children.len() == 0 {
        Seq::empty()
    } else {
        nonleaf_entries(children.drop_last(), parent_id) + (if children.last().tree.len() == 0 {
            Seq::<(TreeV, Seq<char>)>::empty()
        } else {
            seq![(children.last(), parent_id)]
        })
    }
}

/// Pushing a child list's non-leaf entries onto the worklist owes exactly the
/// states that `flatten_siblings` lists for them.
pub proof fn lemma_work_append(
    machine_id: Seq<char>,
    root_id: Seq<char>,
    front: Seq<(TreeV, Seq<char>)>,
    children: Seq<TreeV>,
    parent_id: Seq<char>,
)
    ensures
        work_left(machine_id, root_id, front + nonleaf_entries(children, parent_id))
            == flatten_siblings(machine_id, root_id, parent_id, children) + work_left(
            machine_id,
            root_id,
            front,
        ),
    decreases children.len(),
{
    if children.len() == 0 {
        assert(front + nonleaf_entries(children, parent_id) =~= front);
        assert(flatten_siblings(machine_id, root_id, parent_id, children) + work_left(
            machine_id,
            root_id,
            front,
        ) =~= work_left(machine_id, root_id, front));
    } else {
        let c = children.last();
        let fc = children.drop_last();
        lemma_work_append(machine_id, root_id, front, fc, parent_id);
        assert(children.subrange(0, children.len() - 1) =~= fc);
        if c.tree.len() == 0 {
            assert(front + nonleaf_entries(children, parent_id) =~= front + nonleaf_entries(
                fc,
                parent_id,
            ));
            assert(flatten_siblings(machine_id, root_id, parent_id, children) =~= flatten_siblings(
                machine_id,
                root_id,
                parent_id,
                fc,
            ));
        } else {
            let whole = front + nonleaf_entries(children, parent_id);
            let part = front + nonleaf_entries(fc, parent_id);
            assert(whole =~= part.push((c, parent_id)));
            assert(whole.drop_last() =~= part);
            assert(work_left(machine_id, root_id, whole) == flatten_node(
                machine_id,
                root_id,
                parent_id,
                c,
            ) + work_left(machine_id, root_id, part));
            assert(flatten_node(machine_id, root_id, parent_id, c) + (flatten_siblings(
                machine_id,
                root_id,
                parent_id,
                fc,
            ) + work_left(machine_id, root_id, front)) =~= flatten_siblings(
                machine_id,
                root_id,
                parent_id,
                children,
            ) + work_left(machine_id, root_id, front));
        }
    }
}

/// Flattens one tree document into the states it emits, by an explicit
/// worklist.  The result is exactly `flatten_tree_spec` on the tree's value.
pub fn flatten_tree(machine_id: &str, state_tree: StateTree) -> (r: Vec<State>)
    ensures
        states_view(r@) == flatten_tree_spec(machine_id@, tree_view(state_tree)),
{
    let ghost root_v = tree_view(state_tree);
    let ghost m = machine_id@;
    let ghost root_id = join2(m, root_v.id);
    let ghost total = flatten_tree_spec(m, root_v);
    let root_state_id = join_str(machine_id, state_tree.id.as_str());
    let mut states: Vec<State> = Vec::new();
    let mut stack: Vec<(StateTree, String)> = Vec::new();
    let empty_prefix = String::new();
    stack.push((state_tree, empty_prefix));
    proof {
        let sv = stack_view(stack@);
        assert(sv.len() == 1);
        assert(sv.last() == (root_v, Seq::<char>::empty()));
        assert(sv.drop_last() =~= Seq::<(TreeV, Seq<char>)>::empty());
        assert(work_left(m, root_id, sv.drop_last()) == Seq::<StateV>::empty());
        assert(work_left(m, root_id, sv) == flatten_node(m, root_id, Seq::<char>::empty(), root_v)
            + work_left(m, root_id, sv.drop_last()));
        assert(work_left(m, root_id, sv) =~= flatten_node(m, root_id, Seq::<char>::empty(), root_v));
        assert(states_view(states@) =~= Seq::<StateV>::empty());
        assert(states_view(states@) + work_left(m, root_id, sv) =~= total);
    }
    loop
        invariant
            root_state_id@ == root_id,
            m == machine_id@,
            states_view(states@) + work_left(m, root_id, stack_view(stack@)) == total,
        ensures
            states_view(states@) == total,
        decreases work_left(m, root_id, stack_view(stack@)).len(),
    {
        if stack.len() == 0 {
            proof {
                assert(stack_view(stack@) =~= Seq::<(TreeV, Seq<char>)>::empty());
                assert(work_left(m, root_id, stack_view(stack@)) == Seq::<StateV>::empty());
                assert(states_view(states@) + work_left(m, root_id, stack_view(stack@))
                    =~= states_view(states@));
            }
            break;
        }
        let ghost pre = stack_view(stack@);
        let entry = stack.pop().unwrap();
        let (node, prefix) = entry;
        let ghost node_v = tree_view(node);
        let ghost prefix_v = prefix@;
        let ghost full_id_v = node_full_id(prefix_v, node_v.id);
        proof {
            assert(stack_view(stack@) =~= pre.drop_last());
            assert(pre.last() == (node_v, prefix_v));
        }
        let StateTree { id: node_id, tree: mut children, description: _ } = node;
        let state_id: String = if prefix.as_str().is_empty() {
            node_id
        } else {
            join_str(prefix.as_str(), node_id.as_str())
        };
        proof {
            assert(state_id@ == full_id_v);
        }
        let ghost children_v = node_v.tree;
        let ghost pushed_base = stack_view(stack@);
        let ghost nchildren = children_v.len();
        let mut arrows: Vec<Arrow> = Vec::new();
        proof {
            lemma_trees_view_index(children@);
            assert(children_v == trees_view(children@));
            assert(children_v.take(0) =~= Seq::<TreeV>::empty());
            assert(nonleaf_entries(children_v.take(0), full_id_v) =~= Seq::<
                (TreeV, Seq<char>),
            >::empty());
            assert(stack_view(stack@) =~= pushed_base + nonleaf_entries(
                children_v.take(0),
                full_id_v,
            ));
            assert(arrows_view(arrows@) =~= node_arrows(m, root_id, full_id_v, children_v).take(0));
        }
        loop
            invariant
                m == machine_id@,
                root_state_id@ == root_id,
                state_id@ == full_id_v,
                children@.len() <= nchildren,
                children_v.len() == nchildren,
                forall|i: int| 0 <= i < children@.len() ==> tree_view(#[trigger] children@[i])
                    == children_v[nchildren - children@.len() + i],
                arrows_view(arrows@) == node_arrows(m, root_id, full_id_v, children_v).take(
                    nchildren - children@.len(),
                ),
                stack_view(stack@) == pushed_base + nonleaf_entries(
                    children_v.take(nchildren - children@.len()),
                    full_id_v,
                ),
            ensures
                arrows_view(arrows@) == node_arrows(m, root_id, full_id_v, children_v),
                stack_view(stack@) == pushed_base + nonleaf_entries(children_v, full_id_v),
            decreases children@.len(),
        {
            if children.len() == 0 {
                proof {
                    assert(children_v.take(nchildren - children@.len()) =~= children_v);
                    assert(node_arrows(m, root_id, full_id_v, children_v).take(
                        nchildren - children@.len(),
                    ) =~= node_arrows(m, root_id, full_id_v, children_v));
                }
                break;
            }
            let ghost k = nchildren - children@.len();
            let ghost pre_children = children@;
            let child = children.remove(0);
            let ghost child_v = children_v[k];
            proof {
                assert(tree_view(pre_children[0]) == child_v);
                assert(children@ =~= pre_children.skip(1));
                assert forall|i: int| 0 <= i < children@.len() implies tree_view(
                    #[trigger] children@[i],
                ) == children_v[k + 1 + i] by {
                    assert(children@[i] == pre_children[i + 1]);
                }
                lemma_trees_view_index(child.tree@);
                assert(child.tree@.len() == tree_view(child).tree.len());
            }
            let arrow: Arrow;
            if child.tree.len() == 0 {
                arrow = Arrow::new(child.id.as_str(), root_state_id.as_str());
                proof {
                    assert(arrow@ == child_arrow(m, root_id, full_id_v, child_v));
                }
            } else {
                let base = join_str(machine_id, state_id.as_str());
                let next = join_str(base.as_str(), child.id.as_str());
                arrow = Arrow::new(child.id.as_str(), next.as_str());
                proof {
                    assert(arrow@ == child_arrow(m, root_id, full_id_v, child_v));
                }
                let ghost pre_stack2 = stack_view(stack@);
                stack.push((child, state_id.clone()));
                proof {
                    assert(stack_view(stack@) =~= pre_stack2.push((child_v, full_id_v)));
                    assert(nonleaf_entries(children_v.take(k + 1), full_id_v) =~= nonleaf_entries(
                        children_v.take(k),
                        full_id_v,
                    ).push((child_v, full_id_v))) by {
                        assert(children_v.take(k + 1).drop_last() =~= children_v.take(k));
                        assert(children_v.take(k + 1).last() == child_v);
                    }
                    assert(stack_view(stack@) =~= pushed_base + nonleaf_entries(
                        children_v.take(k + 1),
                        full_id_v,
                    ));
                }
            }
            proof {
                if child_v.tree.len() == 0 {
                    assert(nonleaf_entries(children_v.take(k + 1), full_id_v) =~= nonleaf_entries(
                        children_v.take(k),
                        full_id_v,
                    )) by {
                        assert(children_v.take(k + 1).drop_last() =~= children_v.take(k));
                        assert(children_v.take(k + 1).last() == child_v);
                    }
                    assert(stack_view(stack@) =~= pushed_base + nonleaf_entries(
                        children_v.take(k + 1),
                        full_id_v,
                    ));
                }
            }
            let ghost pre_arrows = arrows_view(arrows@);
            arrows.push(arrow);
            proof {
                assert(arrows_view(arrows@) =~= pre_arrows.push(arrow@));
                assert(node_arrows(m, root_id, full_id_v, children_v).take(k + 1) =~= node_arrows(
                    m,
                    root_id,
                    full_id_v,
                    children_v,
                ).take(k).push(child_arrow(m, root_id, full_id_v, child_v)));
            }
        }
        proof {
            assert(children_v.take(nchildren as int) =~= children_v);
            assert(node_arrows(m, root_id, full_id_v, children_v).take(nchildren as int)
                =~= node_arrows(m, root_id, full_id_v, children_v));
        }
        let ghost final_arrows = arrows_view(arrows@);
        proof {
            assert(final_arrows == node_arrows(m, root_id, full_id_v, children_v));
        }
        let new_state = State::new(state_id.as_str(), arrows);
        let ghost pre_states = states_view(states@);
        states.push(new_state);
        proof {
            assert(new_state@.id == full_id_v);
            assert(new_state@.arrows == sort_arrows(final_arrows));
            assert(new_state@ == node_state(m, root_id, full_id_v, node_v));
            assert(states_view(states@) =~= pre_states.push(node_state(m, root_id, full_id_v, node_v)));
            assert(children_v.take(nchildren as int) =~= children_v);
            assert(stack_view(stack@) == pushed_base + nonleaf_entries(children_v, full_id_v));
            assert(pushed_base == pre.drop_last());
            lemma_work_append(m, root_id, pre.drop_last(), children_v, full_id_v);
            assert(work_left(m, root_id, stack_view(stack@)) == flatten_siblings(
                m, root_id, full_id_v, children_v,
            ) + work_left(m, root_id, pre.drop_last()));
            assert(work_left(m, root_id, pre) == flatten_node(m, root_id, prefix_v, node_v)
                + work_left(m, root_id, pre.drop_last()));
            assert(flatten_node(m, root_id, prefix_v, node_v) == seq![
                node_state(m, root_id, full_id_v, node_v),
            ] + flatten_siblings(m, root_id, full_id_v, children_v));
            assert(states_view(states@) + work_left(m, root_id, stack_view(stack@)) =~= pre_states
                + work_left(m, root_id, pre));
        }
    }
    states
}

} // verus!
