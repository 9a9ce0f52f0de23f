use vstd::prelude::*;

verus! {

/// One producer event of a value name: the position of the node that
/// produced it, and how many of its uses are still to be resolved.
#[derive(Clone, Copy, Debug, PartialEq, Eq, Structural)]
pub struct Generation {
    pub position: usize,
    pub pending_uses: usize,
}

/// How a generated reference to a value must be written.
#[derive(Clone, Debug, PartialEq, Eq)]
pub enum Decision {
    /// The value is needed later: reference it without consuming it.
    Duplicate(String),
    /// This is the last use: the value may be moved.
    Move(String),
}

/// Faults of the build/emit protocol; each aborts the compilation unit.
#[derive(Clone, Debug, PartialEq, Eq)]
pub enum ScopeError {
    /// The name was never produced.
    UnknownVariable(String),
    /// A use was resolved that the build phase never counted: the generation
    /// visible at the position has no pending use left, or the name is only
    /// produced after that position.
    UseBeforeRegistration(String, usize),
    /// A name was produced, or a future use registered, after emission began.
    OutOfPhase(String, usize),
}

/// What a scope holds of each name: its generations, ordered by position.
pub type Ledger = Map<Seq<char>, Seq<Generation>>;

/// The generations of `n` in `m`; none for a name never produced.
pub open spec fn gens(m: Ledger, n: Seq<char>) -> Seq<Generation> {
    if m.contains_key(n) {
        m[n]
    } else {
        Seq::empty()
    }
}

/// Positions strictly increase along the list.
pub open spec fn increasing(g: Seq<Generation>) -> bool {
    forall|a: int, b: int| 0 <= a < b < g.len() ==> g[a].position < g[b].position
}

/// Every name's generations are ordered by position.
pub open spec fn ledger_wf(m: Ledger) -> bool {
    forall|n: Seq<char>| #[trigger] m.contains_key(n) ==> increasing(m[n])
}

/// Generation `i` is the one with the largest position not after `p`.
pub open spec fn is_visible(g: Seq<Generation>, p: int, i: int) -> bool {
    &&& 0 <= i < g.len()
    &&& g[i].position <= p
    &&& forall|j: int| i < j < g.len() ==> p < #[trigger] g[j].position
}

/// Some generation is visible at `p`.
pub open spec fn has_visible(g: Seq<Generation>, p: int) -> bool {
    exists|i: int| is_visible(g, p, i)
}

/// The index of the generation visible at `p`.
pub open spec fn visible(g: Seq<Generation>, p: int) -> int {
    choose|i: int| is_visible(g, p, i)
}

/// The pending uses of the generation of `n` visible at `p`.
pub open spec fn pending_at(m: Ledger, n: Seq<char>, p: int) -> int {
    gens(m, n)[visible(gens(m, n), p)].pending_uses as int
}

/// The ledger after `n` is produced at `p`: a fresh generation with no
/// pending use, unless one at `p` already exists.
pub open spec fn produced(m: Ledger, n: Seq<char>, p: int) -> Ledger {
    if exists|i: int| 0 <= i < gens(m, n).len() && gens(m, n)[i].position == p {
        m
    } else {
        m.insert(n, gens(m, n).push(Generation { position: p as usize, pending_uses: 0 }))
    }
}

/// The ledger with the pending uses of the generation of `n` visible at `p`
/// changed by `delta`.
pub open spec fn counted(m: Ledger, n: Seq<char>, p: int, delta: int) -> Ledger {
    let g = gens(m, n);
    let i = visible(g, p);
    m.insert(n, g.update(i, Generation { pending_uses: (g[i].pending_uses + delta) as usize, ..g[i] }))
}

fn has_position(g: &Vec<Generation>, p: usize) -> (r: bool)
    ensures
        r == exists|i: int| 0 <= i < g.len() && g[i].position == p,
{
    let mut i: usize = 0;
    while i < g.len()
        invariant
            i <= g.len(),
            forall|j: int| 0 <= j < i ==> g[j].position != p,
        decreases g.len() - i,
    {
        if g[i].position == p {
            return true;
        }
        i = i + 1;
    }
    false
}

/// The generation of `g` visible at `p`, by a scan from the latest one.
fn find_visible(g: &Vec<Generation>, p: usize) -> (r: Option<usize>)
    ensures
        match r {
            Some(i) => is_visible(g@, p as int, i as int) && visible(g@, p as int) == i,
            None => !has_visible(g@, p as int),
        },
{
    let mut i: usize = g.len();
    while i > 0
        invariant
            i <= g.len(),
            forall|j: int| i <= j < g.len() ==> p < #[trigger] g[j].position,
        decreases i,
    {
        if g[i - 1].position <= p {
            proof { lemma_visible_unique(g@, p as int, i - 1); }
            return Some(i - 1);
        }
        i = i - 1;
    }
    None
}

/// At most one generation is visible at a position.
pub proof fn lemma_visible_unique(g: Seq<Generation>, p: int, i: int)
    requires
        is_visible(g, p, i),
    ensures
        has_visible(g, p),
        visible(g, p) == i,
{
    let c = visible(g, p);
    if c < i {
        assert(p < g[i].position);
    } else if c > i {
        assert(p < g[c].position);
    }
}

/// Ownership ledger of one graph: for each value name, its generations.
#[derive(Clone, Debug)]
pub struct Scope {
    entries: Vec<NameEntry>,
    in_emit_phase: bool,
}

#[derive(Clone, Debug)]
struct NameEntry {
    name: String,
    generations: Vec<Generation>,
}

impl View for Scope {
    type V = Ledger;

    closed spec fn view(&self) -> Ledger {
        Map::new(
            |n: Seq<char>| exists|i: int| 0 <= i < self.entries.len() && self.entries[i].name@ == n,
            |n: Seq<char>|
                self.entries[choose|i: int|
                    0 <= i < self.entries.len() && self.entries[i].name@ == n].generations@,
        )
    }
}

impl Default for Scope {
    fn default() -> (r: Scope)
        ensures
            r.wf(),
            r@ == Map::<Seq<char>, Seq<Generation>>::empty(),
            !r.emitting(),
    {
        Scope::new()
    }
}

impl Scope {
    /// Names are unique and each name's generations are ordered by position.
    /// Whether the emit phase has begun: a use has been resolved.
    pub closed spec fn emitting(&self) -> bool {
        self.in_emit_phase
    }

    /// Whether the emit phase has begun.
    pub fn is_emitting(&self) -> (r: bool)
        ensures
            r == self.emitting(),
    {
        self.in_emit_phase
    }

    pub closed spec fn wf(&self) -> bool {
        &&& forall|i: int, j: int|
            0 <= i < j < self.entries.len() ==> self.entries[i].name@ != self.entries[j].name@
        &&& forall|i: int| 0 <= i < self.entries.len() ==> increasing(#[trigger] self.entries[i].generations@)
    }

    proof fn lemma_view_at(&self, k: int)
        requires
            self.wf(),
            0 <= k < self.entries.len(),
        ensures
            self@.contains_key(self.entries[k].name@),
            self@[self.entries[k].name@] == self.entries[k].generations@,
    {
        let n = self.entries[k].name@;
        assert(0 <= k < self.entries.len() && self.entries[k].name@ == n);
        let c = choose|i: int| 0 <= i < self.entries.len() && self.entries[i].name@ == n;
        assert(c == k);
    }

    /// In a well-formed scope, each name's generations are ordered by
    /// position.
    pub proof fn lemma_positions_ordered(&self)
        requires
            self.wf(),
        ensures
            ledger_wf(self@),
    {
        assert forall|n: Seq<char>| #[trigger] self@.contains_key(n) implies increasing(self@[n]) by {
            let k = choose|i: int| 0 <= i < self.entries.len() && self.entries[i].name@ == n;
            self.lemma_view_at(k);
        }
    }

    /// An empty ledger.
    pub fn new() -> (r: Scope)
        ensures
            r.wf(),
            r@ == Map::<Seq<char>, Seq<Generation>>::empty(),
            !r.emitting(),
    {
        let r = Scope { entries: Vec::new(), in_emit_phase: false };
        assert(r@ =~= Map::<Seq<char>, Seq<Generation>>::empty());
        r
    }

    fn find(&self, name: &String) -> (r: Option<usize>)
        requires
            self.wf(),
        ensures
            match r {
                Some(k) => k < self.entries.len() && self.entries[k as int].name@ == name@,
                None => forall|i: int| 0 <= i < self.entries.len() ==> self.entries[i].name@ != name@,
            },
            r is None <==> !self@.contains_key(name@),
    {
        let mut k: usize = 0;
        while k < self.entries.len()
            invariant
                self.wf(),
                k <= self.entries.len(),
                forall|i: int| 0 <= i < k ==> self.entries[i].name@ != name@,
            decreases self.entries.len() - k,
        {
            if self.entries[k].name == *name {
                proof { self.lemma_view_at(k as int); }
                return Some(k);
            }
            k = k + 1;
        }
        None
    }

    proof fn lemma_view_ext(&self, m: Ledger)
        requires
            self.wf(),
            forall|k: int| 0 <= k < self.entries.len() ==> m.contains_key(#[trigger] self.entries[k].name@)
                && m[self.entries[k].name@] == self.entries[k].generations@,
            forall|n: Seq<char>| #[trigger] m.contains_key(n) ==> exists|k: int|
                0 <= k < self.entries.len() && self.entries[k].name@ == n,
        ensures
            self@ == m,
    {
        assert forall|n: Seq<char>| #[trigger] self@.contains_key(n) implies m.contains_key(n) && self@[n] == m[n] by {
            let k = choose|i: int| 0 <= i < self.entries.len() && self.entries[i].name@ == n;
            self.lemma_view_at(k);
        }
        assert forall|n: Seq<char>| #[trigger] m.contains_key(n) implies self@.contains_key(n) by {
            let k = choose|i: int| 0 <= i < self.entries.len() && self.entries[i].name@ == n;
            self.lemma_view_at(k);
        }
        assert(self@ =~= m);
    }

    /// Records that the node at `node_position` produces `name`. A second
    /// registration at a position the name already has changes nothing.
    /// Fails with `OutOfPhase` once the emit phase has begun, leaving the
    /// ledger unchanged.
    pub fn tensor_register_variable(&mut self, name: &str, node_position: usize) -> (r: Result<(), ScopeError>)
        requires
            old(self).wf(),
            forall|i: int| 0 <= i < gens(old(self)@, name@).len()
                ==> #[trigger] gens(old(self)@, name@)[i].position <= node_position,
        ensures
            final(self).wf(),
            final(self).emitting() == old(self).emitting(),
            match r {
                Ok(()) => !old(self).emitting()
                    && final(self)@ == produced(old(self)@, name@, node_position as int),
                Err(e) => old(self).emitting() && final(self)@ == old(self)@
                    && e is OutOfPhase && e->OutOfPhase_0@ == name@ && e->OutOfPhase_1 == node_position,
            },
    {
        if self.in_emit_phase {
            return Err(ScopeError::OutOfPhase(String::from_str(name), node_position));
        }
        self.add_generation(name, node_position);
        Ok(())
    }

    fn add_generation(&mut self, name: &str, node_position: usize)
        requires
            old(self).wf(),
            forall|i: int| 0 <= i < gens(old(self)@, name@).len()
                ==> #[trigger] gens(old(self)@, name@)[i].position <= node_position,
        ensures
            final(self).wf(),
            final(self)@ == produced(old(self)@, name@, node_position as int),
            final(self).in_emit_phase == old(self).in_emit_phase,
    {
        let key = String::from_str(name);
        let fresh = Generation { position: node_position, pending_uses: 0 };
        match self.find(&key) {
            Some(k) => {
                proof { self.lemma_view_at(k as int); }
                if has_position(&self.entries[k].generations, node_position) {
                    return;
                }
                let ghost before = *self;
                let mut entry = self.entries.remove(k);
                entry.generations.push(fresh);
                self.entries.insert(k, entry);
                proof {
                    assert(self.entries@ =~= before.entries@.update(k as int, entry));
                    let m = produced(before@, name@, node_position as int);
                    assert forall|k2: int| 0 <= k2 < self.entries.len() implies m.contains_key(#[trigger] self.entries[k2].name@)
                        && m[self.entries[k2].name@] == self.entries[k2].generations@ by {
                        before.lemma_view_at(k2);
                    }
                    assert forall|n: Seq<char>| #[trigger] m.contains_key(n) implies exists|k2: int|
                        0 <= k2 < self.entries.len() && self.entries[k2].name@ == n by {
                        if n != name@ {
                            let c = choose|i: int| 0 <= i < before.entries.len() && before.entries[i].name@ == n;
                            assert(self.entries[c].name@ == n);
                        } else {
                            assert(self.entries[k as int].name@ == n);
                        }
                    }
                    self.lemma_view_ext(m);
                }
            },
            None => {
                let ghost before = *self;
                self.entries.push(NameEntry { name: key, generations: vec![fresh] });
                proof {
                    let m = produced(before@, name@, node_position as int);
                    assert(gens(before@, name@) =~= Seq::<Generation>::empty());
                    assert(m == before@.insert(name@, seq![fresh]));
                    assert forall|k2: int| 0 <= k2 < self.entries.len() implies m.contains_key(#[trigger] self.entries[k2].name@)
                        && m[self.entries[k2].name@] == self.entries[k2].generations@ by {
                        if k2 < before.entries.len() {
                            before.lemma_view_at(k2);
                        } else {
                            assert(self.entries[k2].generations@ =~= seq![fresh]);
                        }
                    }
                    assert forall|n: Seq<char>| #[trigger] m.contains_key(n) implies exists|k2: int|
                        0 <= k2 < self.entries.len() && self.entries[k2].name@ == n by {
                        if n != name@ {
                            let c = choose|i: int| 0 <= i < before.entries.len() && before.entries[i].name@ == n;
                            assert(self.entries[c].name@ == n);
                        } else {
                            assert(self.entries[before.entries.len() as int].name@ == n);
                        }
                    }
                    self.lemma_view_ext(m);
                }
            },
        }
    }

    /// Replaces generation `i` of entry `k` by one at the same position.
    fn set_generation(&mut self, k: usize, i: usize, g: Generation)
        requires
            old(self).wf(),
            k < old(self).entries.len(),
            i < old(self).entries[k as int].generations.len(),
            g.position == old(self).entries[k as int].generations[i as int].position,
        ensures
            final(self).wf(),
            final(self)@ == old(self)@.insert(
                old(self).entries[k as int].name@,
                old(self).entries[k as int].generations@.update(i as int, g),
            ),
            final(self).entries.len() == old(self).entries.len(),
            final(self).in_emit_phase == old(self).in_emit_phase,
    {
        let ghost before = *self;
        let mut entry = self.entries.remove(k);
        entry.generations.set(i, g);
        self.entries.insert(k, entry);
        proof {
            assert(self.entries@ =~= before.entries@.update(k as int, entry));
            let n = before.entries[k as int].name@;
            let m = before@.insert(n, before.entries[k as int].generations@.update(i as int, g));
            assert(increasing(self.entries[k as int].generations@));
            assert forall|k2: int| 0 <= k2 < self.entries.len() implies m.contains_key(#[trigger] self.entries[k2].name@)
                && m[self.entries[k2].name@] == self.entries[k2].generations@ by {
                before.lemma_view_at(k2);
            }
            assert forall|n2: Seq<char>| #[trigger] m.contains_key(n2) implies exists|k2: int|
                0 <= k2 < self.entries.len() && self.entries[k2].name@ == n2 by {
                if n2 != n {
                    let c = choose|i: int| 0 <= i < before.entries.len() && before.entries[i].name@ == n2;
                    assert(self.entries[c].name@ == n2);
                } else {
                    assert(self.entries[k as int].name@ == n2);
                }
            }
            self.lemma_view_ext(m);
        }
    }

    /// Registers one future use of `name` by the node at `node_position`:
    /// the generation visible there gains a pending use. When every
    /// generation of `name` lies after that position, nothing changes. Fails
    /// with `OutOfPhase` once the emit phase has begun, and otherwise with
    /// `UnknownVariable` when `name` was never produced; the ledger is then
    /// unchanged.
    pub fn tensor_register_future_use(&mut self, name: &str, node_position: usize) -> (r: Result<(), ScopeError>)
        requires
            old(self).wf(),
            has_visible(gens(old(self)@, name@), node_position as int)
                ==> pending_at(old(self)@, name@, node_position as int) < usize::MAX,
        ensures
            final(self).wf(),
            final(self).emitting() == old(self).emitting(),
            match r {
                Ok(()) => !old(self).emitting() && old(self)@.contains_key(name@)
                    && if has_visible(gens(old(self)@, name@), node_position as int) {
                        final(self)@ == counted(old(self)@, name@, node_position as int, 1)
                    } else {
                        final(self)@ == old(self)@
                    },
                Err(ScopeError::OutOfPhase(s, q)) => old(self).emitting() && final(self)@ == old(self)@
                    && s@ == name@ && q == node_position,
                Err(ScopeError::UnknownVariable(s)) => !old(self).emitting() && !old(self)@.contains_key(name@)
                    && final(self)@ == old(self)@ && s@ == name@,
                Err(_) => false,
            },
    {
        let key = String::from_str(name);
        if self.in_emit_phase {
            return Err(ScopeError::OutOfPhase(key, node_position));
        }
        match self.find(&key) {
            Some(k) => {
                proof { self.lemma_view_at(k as int); }
                match find_visible(&self.entries[k].generations, node_position) {
                    Some(i) => {
                        let g = self.entries[k].generations[i];
                        self.set_generation(k, i, Generation { pending_uses: g.pending_uses + 1, ..g });
                        Ok(())
                    },
                    None => Ok(()),
                }
            },
            None => Err(ScopeError::UnknownVariable(key)),
        }
    }

    /// Resolves the use of `name` by the node being emitted at
    /// `node_position`: the visible generation loses a pending use, and the
    /// reference duplicates the value while uses remain, or moves it on the
    /// last one. Resolving a use begins the emit phase. Fails with
    /// `UnknownVariable` when `name` was never
    /// produced, and with `UseBeforeRegistration` when no generation is
    /// visible there or the visible one has no pending use left; the ledger
    /// is then unchanged.
    pub fn tensor_use_owned(&mut self, name: &str, node_position: usize) -> (r: Result<Decision, ScopeError>)
        requires
            old(self).wf(),
        ensures
            final(self).wf(),
            match r {
                Ok(d) => has_visible(gens(old(self)@, name@), node_position as int)
                    && pending_at(old(self)@, name@, node_position as int) > 0
                    && final(self)@ == counted(old(self)@, name@, node_position as int, -1)
                    && if pending_at(old(self)@, name@, node_position as int) > 1 {
                        d is Duplicate && d->Duplicate_0@ == name@
                    } else {
                        d is Move && d->Move_0@ == name@
                    },
                Err(ScopeError::UnknownVariable(s)) => !old(self)@.contains_key(name@)
                    && final(self)@ == old(self)@ && s@ == name@,
                Err(ScopeError::UseBeforeRegistration(s, q)) => old(self)@.contains_key(name@)
                    && (!has_visible(gens(old(self)@, name@), node_position as int)
                        || pending_at(old(self)@, name@, node_position as int) == 0)
                    && final(self)@ == old(self)@ && s@ == name@ && q == node_position,
                Err(ScopeError::OutOfPhase(_, _)) => false,
            },
            final(self).emitting(),
    {
        self.in_emit_phase = true;
        let key = String::from_str(name);
        match self.find(&key) {
            Some(k) => {
                proof { self.lemma_view_at(k as int); }
                match find_visible(&self.entries[k].generations, node_position) {
                    Some(i) => {
                        let g = self.entries[k].generations[i];
                        if g.pending_uses == 0 {
                            return Err(ScopeError::UseBeforeRegistration(key, node_position));
                        }
                        let left = g.pending_uses - 1;
                        self.set_generation(k, i, Generation { pending_uses: left, ..g });
                        if left > 0 {
                            Ok(Decision::Duplicate(key))
                        } else {
                            Ok(Decision::Move(key))
                        }
                    },
                    None => Err(ScopeError::UseBeforeRegistration(key, node_position)),
                }
            },
            None => Err(ScopeError::UnknownVariable(key)),
        }
    }

    /// The generations of `name`, ordered by position.
    pub fn generations(&self, name: &str) -> (r: Vec<Generation>)
        requires
            self.wf(),
        ensures
            r@ == gens(self@, name@),
    {
        let key = String::from_str(name);
        match self.find(&key) {
            Some(k) => {
                proof { self.lemma_view_at(k as int); }
                self.entries[k].generations.clone()
            },
            None => Vec::new(),
        }
    }
}

} // verus!
