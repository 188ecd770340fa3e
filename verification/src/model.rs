//! The machine model: arrows, states, machines and the space that gathers
//! them.
//!
//! Every aggregate is an immutable value built once per compile run.  The
//! constructors are the only path that establishes order: the `State`
//! constructors sort arrows by their id, `Machine::new` sorts states,
//! `Space::new` sorts machines, all under the code-point lexicographic order
//! of `ids::lex_le`, stably, so duplicate ids keep their relative order in
//! the sequence.
//! Lookup by id returns the last entry of the sorted sequence bearing that
//! id, mirroring a last-write-wins index rebuilt at construction time.

use vstd::prelude::*;
use crate::ids::{MachineId, StateId, ArrowId, lex_le, str_le, str_eq, insert_le, sort_le,
    lemma_insert_le_at, lemma_sort_le_push};

verus! {

/// Mathematical value of an `Arrow`.
pub ghost struct ArrowV {
    pub id: Seq<char>,
    pub next: Seq<char>,
    pub description: Option<Seq<char>>,
}

/// Mathematical value of a `State`.
pub ghost struct StateV {
    pub id: Seq<char>,
    pub arrows: Seq<ArrowV>,
    pub description: Option<Seq<char>>,
}

/// Mathematical value of a `Machine`.
pub ghost struct MachineV {
    pub id: Seq<char>,
    pub states: Seq<StateV>,
}

/// Mathematical value of a `Space`.
pub ghost struct SpaceV {
    pub machines: Seq<MachineV>,
}

/// A labeled transition to a target state, which may belong to any machine:
/// `next` is a fully qualified `/`-joined path.
#[derive(Debug, PartialEq, Eq)]
pub struct Arrow {
    pub id: ArrowId,
    pub next: StateId,
    pub description: Option<String>,
}

/// A node of a machine, holding its outgoing arrows sorted by arrow id.
#[derive(Debug, PartialEq, Eq)]
pub struct State {
    pub id: StateId,
    pub arrows: Vec<Arrow>,
    pub description: Option<String>,
}

/// A named collection of states sorted by state id.
#[derive(Debug, PartialEq, Eq)]
pub struct Machine {
    pub id: MachineId,
    pub states: Vec<State>,
}

/// The full collection of machines produced by one compile run.
#[derive(Debug, PartialEq, Eq)]
pub struct Space {
    pub machines: Vec<Machine>,
}

pub open spec fn opt_str_view(o: Option<String>) -> Option<Seq<char>> {
    match o {
        Some(s) => Some(s@),
        None => None,
    }
}

impl View for Arrow {
    type V = ArrowV;

    open spec fn view(&self) -> ArrowV {
        ArrowV { id: self.id@, next: self.next@, description: opt_str_view(self.description) }
    }
}

pub open spec fn arrows_view(s: Seq<Arrow>) -> Seq<ArrowV> {
    Seq::new(s.len(), |i: int| s[i]@)
}

impl View for State {
    type V = StateV;

    open spec fn view(&self) -> StateV {
        StateV {
            id: self.id@,
            arrows: arrows_view(self.arrows@),
            description: opt_str_view(self.description),
        }
    }
}

pub open spec fn states_view(s: Seq<State>) -> Seq<StateV> {
    Seq::new(s.len(), |i: int| s[i]@)
}

impl View for Machine {
    type V = MachineV;

    open spec fn view(&self) -> MachineV {
        MachineV { id: self.id@, states: states_view(self.states@) }
    }
}

pub open spec fn machines_view(s: Seq<Machine>) -> Seq<MachineV> {
    Seq::new(s.len(), |i: int| s[i]@)
}

impl View for Space {
    type V = SpaceV;

    open spec fn view(&self) -> SpaceV {
        SpaceV { machines: machines_view(self.machines@) }
    }
}

/// Sort key of an arrow: its id.
pub open spec fn arrow_key() -> spec_fn(ArrowV) -> Seq<char> {
    |a: ArrowV| a.id
}

/// Sort key of a state: its id.
pub open spec fn state_key() -> spec_fn(StateV) -> Seq<char> {
    |s: StateV| s.id
}

/// Sort key of a machine: its id.
pub open spec fn machine_key() -> spec_fn(MachineV) -> Seq<char> {
    |m: MachineV| m.id
}

/// Arrows as `State::new` orders them.
pub open spec fn sort_arrows(s: Seq<ArrowV>) -> Seq<ArrowV> {
    sort_le(s, arrow_key())
}

/// States as `Machine::new` orders them.
pub open spec fn sort_states(s: Seq<StateV>) -> Seq<StateV> {
    sort_le(s, state_key())
}

/// Machines as `Space::new` orders them.
pub open spec fn sort_machines(s: Seq<MachineV>) -> Seq<MachineV> {
    sort_le(s, machine_key())
}

fn insert_arrow_sorted(v: &mut Vec<Arrow>, x: Arrow)
    ensures
        arrows_view(final(v)@) == insert_le(arrows_view(old(v)@), x@, arrow_key()),
{
    let ghost s = arrows_view(v@);
    let mut j: usize = v.len();
    loop
        invariant
            j <= v.len(),
            s == arrows_view(v@),
            forall|k: int| j <= k < s.len() ==> !lex_le(#[trigger] s[k].id, x@.id),
        ensures
            j <= v.len(),
            s == arrows_view(v@),
            forall|k: int| j <= k < s.len() ==> !lex_le(#[trigger] s[k].id, x@.id),
            j > 0 ==> lex_le(s[j - 1].id, x@.id),
        decreases j,
    {
        if j == 0 {
            break;
        }
        if str_le(v[j - 1].id.0.as_str(), x.id.0.as_str()) {
            assert(s[j - 1].id == v@[j - 1]@.id);
            break;
        }
        assert(s[j - 1].id == v@[j - 1]@.id);
        j = j - 1;
    }
    proof {
        lemma_insert_le_at(s, x@, arrow_key(), j as int);
    }
    v.insert(j, x);
    proof {
        assert(arrows_view(v@) =~= s.subrange(0, j as int) + seq![x@] + s.subrange(
            j as int,
            s.len() as int,
        ));
    }
}

fn sort_arrows_vec(arrows: &mut Vec<Arrow>)
    ensures
        arrows_view(final(arrows)@) == sort_arrows(arrows_view(old(arrows)@)),
{
    let ghost full = arrows_view(arrows@);
    let mut out: Vec<Arrow> = Vec::new();
    proof {
        assert(full.take(0) =~= Seq::<ArrowV>::empty());
        assert(arrows_view(out@) =~= Seq::<ArrowV>::empty());
    }
    loop
        invariant
            arrows_view(arrows@) =~= full.skip(full.len() - arrows@.len()),
            arrows@.len() <= full.len(),
            arrows_view(out@) == sort_le(full.take(full.len() - arrows@.len()), arrow_key()),
        ensures
            arrows_view(out@) == sort_arrows(full),
        decreases arrows@.len(),
    {
        if arrows.len() == 0 {
            proof {
                assert(full.take(full.len() as int) =~= full);
            }
            break;
        }
        let ghost k = full.len() - arrows@.len();
        let ghost pre = arrows@;
        let x = arrows.remove(0);
        proof {
            assert(x@ == arrows_view(pre)[0]);
            assert(x@ == full.skip(k)[0]);
            assert(x@ == full[k]);
            assert(full.take(k + 1) =~= full.take(k).push(full[k]));
            lemma_sort_le_push(full.take(k), full[k], arrow_key());
        }
        insert_arrow_sorted(&mut out, x);
        proof {
            assert(arrows@ =~= pre.skip(1));
            assert forall|i: int| 0 <= i < arrows@.len() implies arrows_view(arrows@)[i]
                == full.skip(k + 1)[i] by {
                assert(arrows_view(arrows@)[i] == arrows@[i]@);
                assert(arrows@[i] == pre[i + 1]);
                assert(arrows_view(pre)[i + 1] == pre[i + 1]@);
                assert(arrows_view(pre)[i + 1] == full.skip(k)[i + 1]);
            }
            assert(arrows_view(arrows@) =~= full.skip(k + 1));
        }
    }
    *arrows = out;
}

fn insert_state_sorted(v: &mut Vec<State>, x: State)
    ensures
        states_view(final(v)@) == insert_le(states_view(old(v)@), x@, state_key()),
{
    let ghost s = states_view(v@);
    let mut j: usize = v.len();
    loop
        invariant
            j <= v.len(),
            s == states_view(v@),
            forall|k: int| j <= k < s.len() ==> !lex_le(#[trigger] s[k].id, x@.id),
        ensures
            j <= v.len(),
            s == states_view(v@),
            forall|k: int| j <= k < s.len() ==> !lex_le(#[trigger] s[k].id, x@.id),
            j > 0 ==> lex_le(s[j - 1].id, x@.id),
        decreases j,
    {
        if j == 0 {
            break;
        }
        if str_le(v[j - 1].id.0.as_str(), x.id.0.as_str()) {
            assert(s[j - 1].id == v@[j - 1]@.id);
            break;
        }
        assert(s[j - 1].id == v@[j - 1]@.id);
        j = j - 1;
    }
    proof {
        lemma_insert_le_at(s, x@, state_key(), j as int);
    }
    v.insert(j, x);
    proof {
        assert(states_view(v@) =~= s.subrange(0, j as int) + seq![x@] + s.subrange(
            j as int,
            s.len() as int,
        ));
    }
}

fn sort_states_vec(states: &mut Vec<State>)
    ensures
        states_view(final(states)@) == sort_states(states_view(old(states)@)),
{
    let ghost full = states_view(states@);
    let mut out: Vec<State> = Vec::new();
    proof {
        assert(full.take(0) =~= Seq::<StateV>::empty());
        assert(states_view(out@) =~= Seq::<StateV>::empty());
    }
    loop
        invariant
            states_view(states@) =~= full.skip(full.len() - states@.len()),
            states@.len() <= full.len(),
            states_view(out@) == sort_le(full.take(full.len() - states@.len()), state_key()),
        ensures
            states_view(out@) == sort_states(full),
        decreases states@.len(),
    {
        if states.len() == 0 {
            proof {
                assert(full.take(full.len() as int) =~= full);
            }
            break;
        }
        let ghost k = full.len() - states@.len();
        let ghost pre = states@;
        let x = states.remove(0);
        proof {
            assert(x@ == states_view(pre)[0]);
            assert(x@ == full.skip(k)[0]);
            assert(x@ == full[k]);
            assert(full.take(k + 1) =~= full.take(k).push(full[k]));
            lemma_sort_le_push(full.take(k), full[k], state_key());
        }
        insert_state_sorted(&mut out, x);
        proof {
            assert(states@ =~= pre.skip(1));
            assert forall|i: int| 0 <= i < states@.len() implies states_view(states@)[i]
                == full.skip(k + 1)[i] by {
                assert(states_view(states@)[i] == states@[i]@);
                assert(states@[i] == pre[i + 1]);
                assert(states_view(pre)[i + 1] == pre[i + 1]@);
                assert(states_view(pre)[i + 1] == full.skip(k)[i + 1]);
            }
            assert(states_view(states@) =~= full.skip(k + 1));
        }
    }
    *states = out;
}

fn insert_machine_sorted(v: &mut Vec<Machine>, x: Machine)
    ensures
        machines_view(final(v)@) == insert_le(machines_view(old(v)@), x@, machine_key()),
{
    let ghost s = machines_view(v@);
    let mut j: usize = v.len();
    loop
        invariant
            j <= v.len(),
            s == machines_view(v@),
            forall|k: int| j <= k < s.len() ==> !lex_le(#[trigger] s[k].id, x@.id),
        ensures
            j <= v.len(),
            s == machines_view(v@),
            forall|k: int| j <= k < s.len() ==> !lex_le(#[trigger] s[k].id, x@.id),
            j > 0 ==> lex_le(s[j - 1].id, x@.id),
        decreases j,
    {
        if j == 0 {
            break;
        }
        if str_le(v[j - 1].id.0.as_str(), x.id.0.as_str()) {
            assert(s[j - 1].id == v@[j - 1]@.id);
            break;
        }
        assert(s[j - 1].id == v@[j - 1]@.id);
        j = j - 1;
    }
    proof {
        lemma_insert_le_at(s, x@, machine_key(), j as int);
    }
    v.insert(j, x);
    proof {
        assert(machines_view(v@) =~= s.subrange(0, j as int) + seq![x@] + s.subrange(
            j as int,
            s.len() as int,
        ));
    }
}

fn sort_machines_vec(machines: &mut Vec<Machine>)
    ensures
        machines_view(final(machines)@) == sort_machines(machines_view(old(machines)@)),
{
    let ghost full = machines_view(machines@);
    let mut out: Vec<Machine> = Vec::new();
    proof {
        assert(full.take(0) =~= Seq::<MachineV>::empty());
        assert(machines_view(out@) =~= Seq::<MachineV>::empty());
    }
    loop
        invariant
            machines_view(machines@) =~= full.skip(full.len() - machines@.len()),
            machines@.len() <= full.len(),
            machines_view(out@) == sort_le(full.take(full.len() - machines@.len()), machine_key()),
        ensures
            machines_view(out@) == sort_machines(full),
        decreases machines@.len(),
    {
        if machines.len() == 0 {
            proof {
                assert(full.take(full.len() as int) =~= full);
            }
            break;
        }
        let ghost k = full.len() - machines@.len();
        let ghost pre = machines@;
        let x = machines.remove(0);
        proof {
            assert(x@ == machines_view(pre)[0]);
            assert(x@ == full.skip(k)[0]);
            assert(x@ == full[k]);
            assert(full.take(k + 1) =~= full.take(k).push(full[k]));
            lemma_sort_le_push(full.take(k), full[k], machine_key());
        }
        insert_machine_sorted(&mut out, x);
        proof {
            assert(machines@ =~= pre.skip(1));
            assert forall|i: int| 0 <= i < machines@.len() implies machines_view(machines@)[i]
                == full.skip(k + 1)[i] by {
                assert(machines_view(machines@)[i] == machines@[i]@);
                assert(machines@[i] == pre[i + 1]);
                assert(machines_view(pre)[i + 1] == pre[i + 1]@);
                assert(machines_view(pre)[i + 1] == full.skip(k)[i + 1]);
            }
            assert(machines_view(machines@) =~= full.skip(k + 1));
        }
    }
    *machines = out;
}

impl Arrow {
    /// Builds an arrow with the given label and fully qualified target id and
    /// no description.
    pub fn new(id: &str, next_state: &str) -> (r: Arrow)
        ensures
            r@ == (ArrowV { id: id@, next: next_state@, description: None }),
    {
        Arrow {
            id: ArrowId(String::from_str(id)),
            next: StateId(String::from_str(next_state)),
            description: None,
        }
    }
}

impl State {
    /// Builds a state from its id and arrows; the arrows are sorted stably by
    /// their id, and the description is left empty.
    pub fn new(id: &str, arrows: Vec<Arrow>) -> (r: State)
        ensures
            r@ == (StateV { id: id@, arrows: sort_arrows(arrows_view(arrows@)), description: None }),
    {
        let mut sorted = arrows;
        sort_arrows_vec(&mut sorted);
        State { id: StateId(String::from_str(id)), arrows: sorted, description: None }
    }

    /// Builds a state keeping the given description; the arrows are sorted
    /// stably by their id.  The compiler uses this where a document carries a
    /// description that must survive into the compiled state.
    pub fn with_description(id: &str, arrows: Vec<Arrow>, description: Option<String>) -> (r: State)
        ensures
            r@ == (StateV {
                id: id@,
                arrows: sort_arrows(arrows_view(arrows@)),
                description: opt_str_view(description),
            }),
    {
        let mut sorted = arrows;
        sort_arrows_vec(&mut sorted);
        State { id: StateId(String::from_str(id)), arrows: sorted, description }
    }
}


impl Machine {
    /// Builds a machine from its id and states; the states are sorted stably
    /// by their id.
    pub fn new(id: &str, states: Vec<State>) -> (r: Machine)
        ensures
            r@ == (MachineV { id: id@, states: sort_states(states_view(states@)) }),
    {
        let mut sorted = states;
        sort_states_vec(&mut sorted);
        Machine { id: MachineId(String::from_str(id)), states: sorted }
    }
}

impl Space {
    /// Builds the space from its machines, sorted stably by their id.
    pub fn new(machines: Vec<Machine>) -> (r: Space)
        ensures
            r@ == (SpaceV { machines: sort_machines(machines_view(machines@)) }),
    {
        let mut sorted = machines;
        sort_machines_vec(&mut sorted);
        Space { machines: sorted }
    }
}

/// The entry that an id-keyed lookup finds in a sequence: the last one whose
/// key equals the id, so later entries win over earlier ones.
pub open spec fn find_last<T>(s: Seq<T>, key: spec_fn(T) -> Seq<char>, id: Seq<char>) -> Option<T>
    decreases s.len(),
{
    if s.len() == 0 {
        None
    } else if key(s.last()) == id {
        Some(s.last())
    } else {
        find_last(s.drop_last(), key, id)
    }
}

impl State {
    /// Looks an arrow up by its id, later duplicates winning.
    pub fn arrow_by_id(&self, id: &str) -> (r: Option<&Arrow>)
        ensures
            match r {
                Some(a) => find_last(self@.arrows, arrow_key(), id@) == Some(a@),
                None => find_last(self@.arrows, arrow_key(), id@) is None,
            },
    {
        let ghost s = self@.arrows;
        let mut j: usize = self.arrows.len();
        proof {
            assert(s.take(s.len() as int) =~= s);
        }
        loop
            invariant
                j <= self.arrows.len(),
                s == self@.arrows,
                find_last(s, arrow_key(), id@) == find_last(s.take(j as int), arrow_key(), id@),
            decreases j,
        {
            if j == 0 {
                proof {
                    assert(s.take(0) =~= Seq::<ArrowV>::empty());
                }
                return None;
            }
            if str_eq(self.arrows[j - 1].id.0.as_str(), id) {
                proof {
                    assert(s.take(j as int).last() == s[j - 1]);
                    assert(s[j - 1] == self.arrows@[j - 1]@);
                }
                return Some(&self.arrows[j - 1]);
            }
            proof {
                assert(s.take(j as int).last() == s[j - 1]);
                assert(s[j - 1] == self.arrows@[j - 1]@);
                assert(s.take(j as int).drop_last() =~= s.take(j - 1));
            }
            j = j - 1;
        }
    }
}

impl Machine {
    /// Looks a state up by its id, later duplicates winning.
    pub fn state_by_id(&self, id: &str) -> (r: Option<&State>)
        ensures
            match r {
                Some(st) => find_last(self@.states, state_key(), id@) == Some(st@),
                None => find_last(self@.states, state_key(), id@) is None,
            },
    {
        let ghost s = self@.states;
        let mut j: usize = self.states.len();
        proof {
            assert(s.take(s.len() as int) =~= s);
        }
        loop
            invariant
                j <= self.states.len(),
                s == self@.states,
                find_last(s, state_key(), id@) == find_last(s.take(j as int), state_key(), id@),
            decreases j,
        {
            if j == 0 {
                proof {
                    assert(s.take(0) =~= Seq::<StateV>::empty());
                }
                return None;
            }
            if str_eq(self.states[j - 1].id.0.as_str(), id) {
                proof {
                    assert(s.take(j as int).last() == s[j - 1]);
                    assert(s[j - 1] == self.states@[j - 1]@);
                }
                return Some(&self.states[j - 1]);
            }
            proof {
                assert(s.take(j as int).last() == s[j - 1]);
                assert(s[j - 1] == self.states@[j - 1]@);
                assert(s.take(j as int).drop_last() =~= s.take(j - 1));
            }
            j = j - 1;
        }
    }
}

impl Space {
    /// Looks a machine up by its id, later duplicates winning.
    pub fn machine_by_id(&self, id: &str) -> (r: Option<&Machine>)
        ensures
            match r {
                Some(m) => find_last(self@.machines, machine_key(), id@) == Some(m@),
                None => find_last(self@.machines, machine_key(), id@) is None,
            },
    {
        let ghost s = self@.machines;
        let mut j: usize = self.machines.len();
        proof {
            assert(s.take(s.len() as int) =~= s);
        }
        loop
            invariant
                j <= self.machines.len(),
                s == self@.machines,
                find_last(s, machine_key(), id@) == find_last(s.take(j as int), machine_key(), id@),
            decreases j,
        {
            if j == 0 {
                proof {
                    assert(s.take(0) =~= Seq::<MachineV>::empty());
                }
                return None;
            }
            if str_eq(self.machines[j - 1].id.0.as_str(), id) {
                proof {
                    assert(s.take(j as int).last() == s[j - 1]);
                    assert(s[j - 1] == self.machines@[j - 1]@);
                }
                return Some(&self.machines[j - 1]);
            }
            proof {
                assert(s.take(j as int).last() == s[j - 1]);
                assert(s[j - 1] == self.machines@[j - 1]@);
                assert(s.take(j as int).drop_last() =~= s.take(j - 1));
            }
            j = j - 1;
        }
    }
}

} // verus!
