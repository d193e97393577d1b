//! The daemon's state: named cycles, each an ordered set of workspace names
//! with the position of its last jump, and which of them is active.

use vstd::prelude::*;
use crate::text_order::text_lt;
use crate::name_list::{
    ascending,
    texts,
    rank,
    locate,
    lemma_ascending_no_duplicates,
    lemma_ascending_len,
    lemma_ascending_insert,
    lemma_ascending_remove,
    lemma_ascending_rank,
    lemma_texts_insert_remove,
};

verus! {

/// The cycles as a map from cycle name to the set of its workspaces.
pub type CycleMap = Map<Seq<char>, Set<Seq<char>>>;

/// The whole state: the cycles, each cycle's position, and the active cycle.
pub type CyclesState = (CycleMap, Map<Seq<char>, nat>, Seq<char>);

/// The set of workspaces after toggling `w`: taken out if it was there, put
/// in if it was not.
pub open spec fn toggled(ws: Set<Seq<char>>, w: Seq<char>) -> Set<Seq<char>> {
    if ws.contains(w) {
        ws.remove(w)
    } else {
        ws.insert(w)
    }
}

/// The cycles after selecting `name` while `active` is the active cycle: the
/// active cycle is dropped when it is empty and another one is selected, and
/// `name` is added, empty, when it is not there yet.
pub open spec fn selected(m: CycleMap, active: Seq<char>, name: Seq<char>) -> CycleMap {
    let kept = if active != name && m[active].len() == 0 {
        m.remove(active)
    } else {
        m
    };
    if m.dom().contains(name) {
        kept
    } else {
        kept.insert(name, Set::empty())
    }
}

/// The positions after selecting `name` while `active` is the active cycle:
/// a dropped cycle loses its position, a created one starts at 0, and every
/// other cycle keeps its own.
pub open spec fn selected_positions(
    p: Map<Seq<char>, nat>,
    m: CycleMap,
    active: Seq<char>,
    name: Seq<char>,
) -> Map<Seq<char>, nat> {
    let kept = if active != name && m[active].len() == 0 {
        p.remove(active)
    } else {
        p
    };
    if m.dom().contains(name) {
        kept
    } else {
        kept.insert(name, 0)
    }
}

/// The position that a jump moves to from `position` in a cycle of `n`
/// workspaces.
pub open spec fn next_position(position: nat, n: nat) -> nat {
    (position + 1) % n
}

/// One cycle: its workspaces, ascending, and the position of its last jump.
#[derive(Debug, Clone)]
pub struct CycleData {
    workspaces: Vec<String>,
    position: usize,
}

impl CycleData {
    /// The set of workspaces of the cycle.
    pub closed spec fn members(&self) -> Set<Seq<char>> {
        texts(self.workspaces@).to_set()
    }

    /// The position of the last jump in the cycle.
    pub closed spec fn pos(&self) -> nat {
        self.position as nat
    }

    /// The workspaces are kept ascending and the position can still move on.
    pub closed spec fn well_formed(&self) -> bool {
        &&& ascending(texts(self.workspaces@))
        &&& self.position < usize::MAX
    }

    /// Whether `workspace` belongs to the cycle.
    pub fn contains(&self, workspace: &str) -> (r: bool)
        requires
            self.well_formed(),
        ensures
            r == self.members().contains(workspace@),
    {
        let (_, found) = locate(&self.workspaces, workspace);
        found
    }

    /// The number of workspaces of the cycle.
    pub fn len(&self) -> (n: usize)
        requires
            self.well_formed(),
        ensures
            n == self.members().len(),
    {
        proof {
            lemma_ascending_len(texts(self.workspaces@));
        }
        self.workspaces.len()
    }

    /// The position of the last jump in the cycle.
    pub fn position(&self) -> (p: usize)
        ensures
            p == self.pos(),
    {
        self.position
    }

    /// The workspaces of the cycle, ascending.
    pub fn workspaces(&self) -> (v: Vec<String>)
        requires
            self.well_formed(),
        ensures
            ascending(texts(v@)),
            texts(v@).to_set() == self.members(),
    {
        let v = self.workspaces.clone();
        proof {
            assert(texts(v@) =~= texts(self.workspaces@)) by {
                assert forall|j: int| 0 <= j < v.len() implies v@[j] == self.workspaces@[j] by {
                    assert(cloned::<String>(self.workspaces[j], v[j]));
                }
            }
        }
        v
    }
}

/// Named cycles of workspaces.
#[derive(Clone)]
pub struct Cycles {
    /// Cycle names, ascending.
    names: Vec<String>,
    /// `data[i]` holds the workspaces and position of cycle `names[i]`.
    data: Vec<CycleData>,
    /// The currently active cycle name.
    active_cycle: String,
    model: Ghost<CycleMap>,
    position_model: Ghost<Map<Seq<char>, nat>>,
}

impl Cycles {
    /// Each cycle's name and the set of its workspaces.
    pub closed spec fn cycle_map(&self) -> CycleMap {
        self.model@
    }

    /// Each cycle's name and the position of its last jump.
    pub closed spec fn positions(&self) -> Map<Seq<char>, nat> {
        self.position_model@
    }

    /// The name of the active cycle.
    pub closed spec fn active(&self) -> Seq<char> {
        self.active_cycle@
    }

    /// The cycles, their positions and the active cycle together.
    pub open spec fn state(&self) -> CyclesState {
        (self.cycle_map(), self.positions(), self.active())
    }

    /// The lists agree with the maps, are ascending, the active cycle exists,
    /// and every other cycle has a workspace.
    pub closed spec fn wf(&self) -> bool {
        &&& self.names.len() == self.data.len()
        &&& ascending(texts(self.names@))
        &&& forall|i: int| 0 <= i < self.data.len() ==> (#[trigger] self.data@[i]).well_formed()
        &&& self.model@.dom() == texts(self.names@).to_set()
        &&& self.position_model@.dom() == self.model@.dom()
        &&& forall|i: int|
            0 <= i < self.names.len() ==> self.model@[#[trigger] self.names@[i]@]
                == self.data@[i].members()
        &&& forall|i: int|
            0 <= i < self.names.len() ==> self.position_model@[#[trigger] self.names@[i]@]
                == self.data@[i].pos()
        &&& self.model@.dom().contains(self.active_cycle@)
        &&& forall|i: int|
            0 <= i < self.names.len() && self.names@[i]@ != self.active_cycle@
                ==> #[trigger] self.data@[i].workspaces.len() > 0
    }

    /// State with one empty cycle, "default", which is active.
    pub fn new() -> (c: Self)
        ensures
            c.wf(),
            c.cycle_map() == Map::<Seq<char>, Set<Seq<char>>>::empty().insert(
                "default"@,
                Set::empty(),
            ),
            c.positions() == Map::<Seq<char>, nat>::empty().insert("default"@, 0),
            c.active() == "default"@,
    {
        let name = String::from_str("default");
        let mut names: Vec<String> = Vec::new();
        names.push(name.clone());
        let mut data: Vec<CycleData> = Vec::new();
        data.push(CycleData { workspaces: Vec::new(), position: 0 });
        let ghost m = Map::<Seq<char>, Set<Seq<char>>>::empty().insert(name@, Set::empty());
        let ghost p = Map::<Seq<char>, nat>::empty().insert(name@, 0);
        let c = Cycles {
            names,
            data,
            active_cycle: name,
            model: Ghost(m),
            position_model: Ghost(p),
        };
        proof {
            assert(texts(c.names@) =~= seq![name@]);
            assert(texts(c.names@).to_set() =~= m.dom()) by {
                assert(texts(c.names@)[0] == name@);
            }
            assert(p.dom() =~= m.dom());
            assert(texts(c.data@[0].workspaces@).to_set() =~= Set::<Seq<char>>::empty());
        }
        c
    }

    /// The index of the active cycle in the lists.
    fn active_index(&self) -> (i: usize)
        requires
            self.wf(),
        ensures
            i < self.names.len(),
            self.names@[i as int]@ == self.active_cycle@,
    {
        let (i, found) = locate(&self.names, self.active_cycle.as_str());
        i
    }

    /// Jumps to the next workspace, in ascending order, of the active cycle,
    /// wrapping around at the end; nothing happens when the cycle has fewer
    /// than 2 workspaces.
    pub fn next(&mut self) -> (r: Option<String>)
        requires
            old(self).wf(),
        ensures
            final(self).wf(),
            final(self).cycle_map() == old(self).cycle_map(),
            final(self).active() == old(self).active(),
            ({
                let a = old(self).active();
                let ws = old(self).cycle_map()[a];
                let p = old(self).positions()[a];
                if ws.len() < 2 {
                    &&& r is None
                    &&& final(self).positions() == old(self).positions()
                } else {
                    &&& final(self).positions() == old(self).positions().insert(
                        a,
                        next_position(p, ws.len()),
                    )
                    &&& r matches Some(w) && ws.contains(w@)
                        && rank(ws, w@) == next_position(p, ws.len())
                }
            }),
    {
        let i = self.active_index();
        let n = self.data[i].workspaces.len();
        proof {
            lemma_ascending_len(texts(self.data@[i as int].workspaces@));
            lemma_ascending_no_duplicates(texts(self.names@));
        }
        if n < 2 {
            return None;
        }
        let ghost old_data = self.data@;
        let p = (self.data[i].position + 1) % n;
        self.data[i].position = p;
        let w = self.data[i].workspaces[p].clone();
        proof {
            let s = texts(self.data@[i as int].workspaces@);
            lemma_ascending_rank(s, p as int);
            assert(s[p as int] == w@);
            self.position_model = Ghost(self.position_model@.insert(self.active_cycle@, p as nat));
            assert(self.data@ == old_data.update(i as int, self.data@[i as int]));
            assert(self.position_model@.dom() =~= self.model@.dom());
            assert forall|j: int| 0 <= j < self.names.len() implies self.position_model@[#[trigger] self.names@[j]@]
                == self.data@[j].pos() by {
                if j != i {
                    assert(texts(self.names@)[j] != texts(self.names@)[i as int]);
                }
            }
        }
        Some(w)
    }

    /// Puts `workspace` into the active cycle when it is not there, and
    /// takes it out when it is; returns whether it was put in.
    pub fn toggle(&mut self, workspace: String) -> (added: bool)
        requires
            old(self).wf(),
        ensures
            final(self).wf(),
            final(self).active() == old(self).active(),
            final(self).positions() == old(self).positions(),
            added == !old(self).cycle_map()[old(self).active()].contains(workspace@),
            final(self).cycle_map() == old(self).cycle_map().insert(
                old(self).active(),
                toggled(old(self).cycle_map()[old(self).active()], workspace@),
            ),
    {
        let i = self.active_index();
        let ghost old_names = self.names@;
        let ghost old_data = self.data@;
        let ghost old_model = self.model@;
        let ghost inner = self.data@[i as int].workspaces@;
        let ghost ws = texts(inner);
        let (k, found) = locate(&self.data[i].workspaces, workspace.as_str());
        proof {
            lemma_ascending_no_duplicates(texts(old_names));
            lemma_texts_insert_remove(inner, k as int, workspace);
        }
        if found {
            self.data[i].workspaces.remove(k);
            proof {
                lemma_ascending_remove(ws, k as int);
                assert(ws[k as int] == workspace@);
                assert(ws.to_set().contains(workspace@));
                self.model = Ghost(old_model.insert(old_names[i as int]@, ws.to_set().remove(workspace@)));
            }
        } else {
            self.data[i].workspaces.insert(k, workspace);
            proof {
                assert forall|j: int| 0 <= j < k implies text_lt(#[trigger] ws[j], workspace@) by {
                    assert(ws[j] == inner[j]@);
                }
                assert forall|j: int| k <= j < ws.len() implies text_lt(workspace@, #[trigger] ws[j]) by {
                    assert(ws[j] == inner[j]@);
                }
                lemma_ascending_insert(ws, k as int, workspace@);
                self.model = Ghost(old_model.insert(old_names[i as int]@, ws.to_set().insert(workspace@)));
            }
        }
        proof {
            assert(self.data@ == old_data.update(i as int, self.data@[i as int]));
            assert forall|j: int| 0 <= j < self.names.len() implies self.model@[#[trigger] self.names@[j]@]
                == self.data@[j].members() by {
                if j != i {
                    assert(texts(old_names)[j] != texts(old_names)[i as int]);
                }
            }
            assert(self.model@.dom() =~= old_model.dom());
        }
        !found
    }

    /// Makes `name` the active cycle, creating it empty, at position 0, when
    /// it does not exist, and drops the previously active cycle when it is a
    /// different, empty one; every other cycle keeps its workspaces and its
    /// position. A cycle that is selected again, the active one included,
    /// goes on from its own position rather than starting over at 0.
    /// Returns whether `name` was created.
    pub fn select_cycle(&mut self, name: String) -> (created: bool)
        requires
            old(self).wf(),
        ensures
            final(self).wf(),
            created == !old(self).cycle_map().dom().contains(name@),
            final(self).active() == name@,
            final(self).cycle_map() == selected(old(self).cycle_map(), old(self).active(), name@),
            final(self).positions() == selected_positions(
                old(self).positions(),
                old(self).cycle_map(),
                old(self).active(),
                name@,
            ),
    {
        let i = self.active_index();
        let ghost m0 = self.model@;
        let ghost p0 = self.position_model@;
        let ghost a0 = self.active_cycle@;
        proof {
            lemma_ascending_len(texts(self.data@[i as int].workspaces@));
            lemma_ascending_no_duplicates(texts(self.names@));
        }
        let same = self.active_cycle == name;
        if !same && self.data[i].workspaces.len() == 0 {
            let ghost old_names = self.names@;
            let ghost old_data = self.data@;
            self.names.remove(i);
            self.data.remove(i);
            proof {
                let nm = self.active_cycle;
                lemma_texts_insert_remove(old_names, i as int, nm);
                lemma_ascending_remove(texts(old_names), i as int);
                self.model = Ghost(m0.remove(a0));
                self.position_model = Ghost(p0.remove(a0));
                assert(self.model@.dom() =~= texts(self.names@).to_set());
                assert(self.position_model@.dom() =~= self.model@.dom());
                assert forall|j: int| 0 <= j < self.names.len() implies
                    self.model@[#[trigger] self.names@[j]@] == self.data@[j].members()
                    && self.position_model@[self.names@[j]@] == self.data@[j].pos() by {
                    if j < i {
                        assert(self.names@[j] == old_names[j]);
                        assert(self.data@[j] == old_data[j]);
                        assert(texts(old_names)[j] != texts(old_names)[i as int]);
                    } else {
                        assert(self.names@[j] == old_names[j + 1]);
                        assert(self.data@[j] == old_data[j + 1]);
                        assert(texts(old_names)[j + 1] != texts(old_names)[i as int]);
                    }
                }
                assert forall|j: int| 0 <= j < self.data.len() implies (#[trigger] self.data@[j]).well_formed() by {
                    if j < i {
                        assert(self.data@[j] == old_data[j]);
                    } else {
                        assert(self.data@[j] == old_data[j + 1]);
                    }
                }
                assert forall|j: int| 0 <= j < self.names.len() && self.names@[j]@ != name@
                    implies #[trigger] self.data@[j].workspaces.len() > 0 by {
                    if j < i {
                        assert(self.names@[j] == old_names[j]);
                        assert(self.data@[j] == old_data[j]);
                        assert(texts(old_names)[j] != texts(old_names)[i as int]);
                    } else {
                        assert(self.names@[j] == old_names[j + 1]);
                        assert(self.data@[j] == old_data[j + 1]);
                        assert(texts(old_names)[j + 1] != texts(old_names)[i as int]);
                    }
                }
            }
        } else {
            proof {
                assert forall|j: int| 0 <= j < self.names.len() && self.names@[j]@ != name@
                    implies #[trigger] self.data@[j].workspaces.len() > 0 by {
                    if self.names@[j]@ == a0 {
                        assert(texts(self.names@)[j] == texts(self.names@)[i as int]);
                    }
                }
            }
        }
        let ghost m1 = self.model@;
        let ghost p1 = self.position_model@;
        assert(m1 == (if a0 != name@ && m0[a0].len() == 0 { m0.remove(a0) } else { m0 }));
        assert(p1 == (if a0 != name@ && m0[a0].len() == 0 { p0.remove(a0) } else { p0 }));
        let (k, found) = locate(&self.names, name.as_str());
        if !found {
            let ghost old_names = self.names@;
            let ghost old_data = self.data@;
            assert(forall|j: int| 0 <= j < old_names.len() ==> m1[#[trigger] old_names[j]@]
                == old_data[j].members() && p1[old_names[j]@] == old_data[j].pos());
            self.names.insert(k, name.clone());
            self.data.insert(k, CycleData { workspaces: Vec::new(), position: 0 });
            proof {
                lemma_texts_insert_remove(old_names, k as int, name);
                let s = texts(old_names);
                assert forall|j: int| 0 <= j < k implies text_lt(#[trigger] s[j], name@) by {
                    assert(s[j] == old_names[j]@);
                }
                assert forall|j: int| k <= j < s.len() implies text_lt(name@, #[trigger] s[j]) by {
                    assert(s[j] == old_names[j]@);
                }
                lemma_ascending_insert(s, k as int, name@);
                self.model = Ghost(m1.insert(name@, Set::empty()));
                self.position_model = Ghost(p1.insert(name@, 0));
                assert(self.model@.dom() =~= texts(self.names@).to_set());
                assert(self.position_model@.dom() =~= self.model@.dom());
                assert(texts(self.data@[k as int].workspaces@).to_set() =~= Set::<Seq<char>>::empty());
                assert forall|j: int| 0 <= j < self.names.len() implies
                    self.model@[#[trigger] self.names@[j]@] == self.data@[j].members()
                    && self.position_model@[self.names@[j]@] == self.data@[j].pos() by {
                    if j < k {
                        assert(self.names@[j] == old_names[j]);
                        assert(self.data@[j] == old_data[j]);
                        assert(s[j] == old_names[j]@);
                        assert(m1[old_names[j]@] == old_data[j].members());
                    } else if j > k {
                        assert(self.names@[j] == old_names[j - 1]);
                        assert(self.data@[j] == old_data[j - 1]);
                        assert(s[j - 1] == old_names[j - 1]@);
                        assert(m1[old_names[j - 1]@] == old_data[j - 1].members());
                    }
                }
                assert forall|j: int| 0 <= j < self.data.len() implies (#[trigger] self.data@[j]).well_formed() by {
                    if j < k {
                        assert(self.data@[j] == old_data[j]);
                    } else if j > k {
                        assert(self.data@[j] == old_data[j - 1]);
                    } else {
                        assert(texts(self.data@[j].workspaces@) =~= Seq::<Seq<char>>::empty());
                    }
                }
                assert forall|j: int| 0 <= j < self.names.len() && self.names@[j]@ != name@
                    implies #[trigger] self.data@[j].workspaces.len() > 0 by {
                    if j < k {
                        assert(self.names@[j] == old_names[j]);
                        assert(self.data@[j] == old_data[j]);
                    } else if j > k {
                        assert(self.names@[j] == old_names[j - 1]);
                        assert(self.data@[j] == old_data[j - 1]);
                    }
                }
            }
        }
        self.active_cycle = name;
        proof {
            assert(self.model@.dom().contains(self.active_cycle@));
        }
        !found
    }

    /// The names of all cycles, ascending.
    pub fn list_cycles(&self) -> (names: Vec<String>)
        requires
            self.wf(),
        ensures
            ascending(texts(names@)),
            texts(names@).to_set() == self.cycle_map().dom(),
    {
        let names = self.names.clone();
        proof {
            assert(texts(names@) =~= texts(self.names@)) by {
                assert forall|j: int| 0 <= j < names.len() implies names@[j] == self.names@[j] by {
                    assert(cloned::<String>(self.names[j], names[j]));
                }
            }
        }
        names
    }

    /// The name of the active cycle.
    pub fn active_cycle(&self) -> (r: String)
        ensures
            r@ == self.active(),
    {
        self.active_cycle.clone()
    }

    /// The position of the last jump in the active cycle.
    pub fn current_position(&self) -> (r: usize)
        requires
            self.wf(),
        ensures
            r as nat == self.positions()[self.active()],
    {
        let i = self.active_index();
        self.data[i].position
    }

    /// The workspaces and position of cycle `name`, or `None` when there is
    /// no such cycle.
    pub fn cycle_data(&self, name: &str) -> (r: Option<CycleData>)
        requires
            self.wf(),
        ensures
            r is None <==> !self.cycle_map().dom().contains(name@),
            r matches Some(d) ==> d.well_formed() && d.members() == self.cycle_map()[name@]
                && d.pos() == self.positions()[name@],
    {
        let (i, found) = locate(&self.names, name);
        if !found {
            return None;
        }
        let workspaces = self.data[i].workspaces();
        let d = CycleData { workspaces, position: self.data[i].position };
        Some(d)
    }
}

impl Default for Cycles {
    /// The same state as `Cycles::new()`.
    fn default() -> (c: Self)
        ensures
            c.wf(),
            c.cycle_map() == Map::<Seq<char>, Set<Seq<char>>>::empty().insert(
                "default"@,
                Set::empty(),
            ),
            c.positions() == Map::<Seq<char>, nat>::empty().insert("default"@, 0),
            c.active() == "default"@,
    {
        Self::new()
    }
}

/// Every state that the operations produce has its active cycle among its
/// cycles, so toggling never lacks a cycle to work on.
pub proof fn lemma_active_cycle_exists(c: &Cycles)
    requires
        c.wf(),
    ensures
        c.cycle_map().dom().contains(c.active()),
{
}

/// Every cycle but the active one has at least one workspace: an empty cycle
/// is dropped as soon as another cycle is selected.
pub proof fn lemma_inactive_cycles_not_empty(c: &Cycles, name: Seq<char>)
    requires
        c.wf(),
        c.cycle_map().dom().contains(name),
        name != c.active(),
    ensures
        c.cycle_map()[name].len() > 0,
{
    let i = choose|i: int| 0 <= i < texts(c.names@).len() && texts(c.names@)[i] == name;
    assert(c.names@[i]@ == name);
    assert(c.data@[i].workspaces.len() > 0);
    lemma_ascending_len(texts(c.data@[i].workspaces@));
}

/// There are finitely many cycles, each with finitely many workspaces.
pub proof fn lemma_cycle_sets_finite(c: &Cycles, name: Seq<char>)
    requires
        c.wf(),
        c.cycle_map().dom().contains(name),
    ensures
        c.cycle_map()[name].finite(),
        c.cycle_map().dom().finite(),
{
    let i = choose|i: int| 0 <= i < texts(c.names@).len() && texts(c.names@)[i] == name;
    assert(c.names@[i]@ == name);
    assert(c.data@[i].well_formed());
    lemma_ascending_len(texts(c.data@[i].workspaces@));
    lemma_ascending_len(texts(c.names@));
}

/// Toggling the same workspace twice gives back the cycles as they were, and
/// of the two toggles one adds the workspace and the other takes it out.
pub proof fn lemma_toggle_twice(m: CycleMap, active: Seq<char>, w: Seq<char>)
    requires
        m.dom().contains(active),
    ensures
        toggled(m[active], w).contains(w) == !m[active].contains(w),
        toggled(toggled(m[active], w), w) == m[active],
        m.insert(active, toggled(m[active], w)).insert(
            active,
            toggled(m.insert(active, toggled(m[active], w))[active], w),
        ) == m,
{
    let ws = m[active];
    assert(toggled(toggled(ws, w), w) =~= ws);
    assert(m.insert(active, toggled(m[active], w)).insert(
        active,
        toggled(m.insert(active, toggled(m[active], w))[active], w),
    ) =~= m);
}

/// The position after `k` jumps from `position` in a cycle of `n` workspaces.
pub open spec fn position_after(position: nat, n: nat, k: nat) -> nat
    decreases k,
{
    if k == 0 {
        position
    } else {
        next_position(position_after(position, n, (k - 1) as nat), n)
    }
}

/// Jumping `k` times moves `k` places forward, wrapping around.
pub proof fn lemma_position_after(position: nat, n: nat, k: nat)
    requires
        n > 0,
        k > 0,
    ensures
        position_after(position, n, k) == ((position + k) as int) % (n as int),
    decreases k,
{
    if k > 1 {
        lemma_position_after(position, n, (k - 1) as nat);
        vstd::arithmetic::div_mod::lemma_add_mod_noop_right(1, (position + k - 1) as int, n as int);
    } else {
        assert(position_after(position, n, 0) == position);
    }
}

/// In a cycle of `n` workspaces, `n` jumps in a row land on `n` different
/// positions, so each workspace of the cycle is visited once, and the last
/// one lands where the position, taken around the cycle, started.
pub proof fn lemma_jumps_visit_every_workspace(position: nat, n: nat, i: nat, j: nat)
    requires
        n > 0,
        1 <= i < j <= n,
    ensures
        position_after(position, n, i) != position_after(position, n, j),
        position_after(position, n, i) < n,
        position_after(position, n, n) == (position as int) % (n as int),
{
    lemma_position_after(position, n, i);
    lemma_position_after(position, n, j);
    lemma_position_after(position, n, n);
    let a = (position + i) as int;
    let b = (position + j) as int;
    let d = n as int;
    vstd::arithmetic::div_mod::lemma_fundamental_div_mod(a, d);
    vstd::arithmetic::div_mod::lemma_fundamental_div_mod(b, d);
    vstd::arithmetic::div_mod::lemma_mod_bound(a, d);
    vstd::arithmetic::div_mod::lemma_mod_bound(b, d);
    if a % d == b % d {
        let qa = a / d;
        let qb = b / d;
        assert(b - a == d * (qb - qa)) by (nonlinear_arith)
            requires
                a == d * qa + (a % d),
                b == d * qb + (b % d),
                a % d == b % d,
        ;
        assert(false) by (nonlinear_arith)
            requires
                b - a == d * (qb - qa),
                0 < b - a < d,
                d > 0,
        ;
    }
    vstd::arithmetic::div_mod::lemma_mod_add_multiples_vanish(position as int, d);
}

/// Selecting a cycle leaves every other remaining cycle as it was: the same
/// workspaces and the same position; only the newly selected cycle, when it
/// is created, and the dropped empty one change.
pub proof fn lemma_select_keeps_other_cycles(
    m: CycleMap,
    p: Map<Seq<char>, nat>,
    active: Seq<char>,
    name: Seq<char>,
    other: Seq<char>,
)
    requires
        m.dom().contains(active),
        p.dom() == m.dom(),
        selected(m, active, name).dom().contains(other),
        other != name || m.dom().contains(name),
    ensures
        m.dom().contains(other),
        selected(m, active, name)[other] == m[other],
        selected_positions(p, m, active, name).dom().contains(other),
        selected_positions(p, m, active, name)[other] == p[other],
{
}

} // verus!
