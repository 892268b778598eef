//! Nondeterministic finite automata over the same byte alphabet: each
//! transition entry holds a set of destination states, simulation carries a
//! set of current states, and the longest prefix that reaches any
//! accepting state is recorded.

use vstd::prelude::*;
use crate::dfa::alpha_index;

verus! {

/// One row of a nondeterministic table: the destinations on each alphabet
/// column form a set of states, empty where no transition exists.
#[derive(Debug, Clone, PartialEq, Eq)]
pub struct NfaStateRow {
    pub accepting: bool,
    pub state_id: u32,
    pub transitions: Vec<Vec<u32>>,
}

/// The mathematical content of a nondeterministic row.
#[verifier::ext_equal]
pub ghost struct NfaRowView {
    pub accepting: bool,
    pub state_id: u32,
    pub transitions: Seq<Seq<u32>>,
}

impl View for NfaStateRow {
    type V = NfaRowView;

    open spec fn view(&self) -> NfaRowView {
        NfaRowView {
            accepting: self.accepting,
            state_id: self.state_id,
            transitions: self.transitions@.map_values(|v: Vec<u32>| v@),
        }
    }
}

/// The mathematical content of a nondeterministic automaton.
#[verifier::ext_equal]
pub ghost struct NfaTableView {
    pub rows: Seq<NfaRowView>,
    pub alphabet: Seq<u8>,
    pub start: u32,
}

impl NfaTableView {
    /// A well-formed table: non-empty, rows as wide as the alphabet,
    /// destinations inside the table, and a start state inside it too.
    pub open spec fn wf(self) -> bool {
        &&& self.rows.len() > 0
        &&& forall|i: int|
            0 <= i < self.rows.len() ==> (#[trigger] self.rows[i]).transitions.len()
                == self.alphabet.len()
        &&& forall|i: int, c: int, k: int|
            0 <= i < self.rows.len() && 0 <= c < self.alphabet.len() && 0 <= k
                < self.rows[i].transitions[c].len() ==> (#[trigger] self.rows[i].transitions[c][k])
                < self.rows.len()
        &&& (self.start as int) < self.rows.len()
    }

    /// The states reachable in one step on `b` from any state of `ss`;
    /// empty when `b` is outside the alphabet.
    pub open spec fn step_set(self, ss: Set<u32>, b: u8) -> Set<u32> {
        match alpha_index(self.alphabet, b) {
            None => Set::empty(),
            Some(c) => Set::new(
                |q2: u32|
                    exists|q: u32|
                        ss.contains(q) && 0 <= q < self.rows.len() && 0 <= c
                            < self.rows[q as int].transitions.len() && #[trigger] self.rows[q as int].transitions[c].contains(q2),
            ),
        }
    }

    /// Whether any state of `ss` inside the table accepts.
    pub open spec fn set_accepting(self, ss: Set<u32>) -> bool {
        exists|q: u32| ss.contains(q) && 0 <= q < self.rows.len() && (#[trigger] self.rows[q as int]).accepting
    }

    /// The state set after reading exactly all of `s` from `ss`, or `None`
    /// where the set ran empty first.
    pub open spec fn run_exact(self, ss: Set<u32>, s: Seq<u8>) -> Option<Set<u32>>
        decreases s.len(),
    {
        if s.len() == 0 {
            Some(ss)
        } else {
            let ns = self.step_set(ss, s[0]);
            if set_nonempty(ns) {
                self.run_exact(ns, s.drop_first())
            } else {
                None
            }
        }
    }

    /// How many bytes of `s` a run from `ss` reads before the state set
    /// would run empty; all of `s` when it never does.
    pub open spec fn consumed_from(self, ss: Set<u32>, s: Seq<u8>) -> nat
        decreases s.len(),
    {
        if s.len() == 0 {
            0
        } else {
            let ns = self.step_set(ss, s[0]);
            if set_nonempty(ns) {
                1 + self.consumed_from(ns, s.drop_first())
            } else {
                0
            }
        }
    }

    /// Whether the prefix of `s` of length `l`, run exactly from `ss`,
    /// ends in a set holding an accepting state.
    pub open spec fn accepts_at(self, ss: Set<u32>, s: Seq<u8>, l: int) -> bool {
        match self.run_exact(ss, s.take(l)) {
            Some(end) => self.set_accepting(end),
            None => false,
        }
    }

    /// The length of the longest non-empty prefix of `s`, no longer than
    /// `upto`, whose exact run from `ss` ends in a set holding an
    /// accepting state; 0 where there is none.
    pub open spec fn best_match_len(self, ss: Set<u32>, s: Seq<u8>, upto: nat) -> nat
        decreases upto,
    {
        if upto == 0 {
            0
        } else if self.accepts_at(ss, s, upto as int) {
            upto
        } else {
            self.best_match_len(ss, s, (upto - 1) as nat)
        }
    }
}

/// Whether a state set holds any state.
pub open spec fn set_nonempty(ss: Set<u32>) -> bool {
    exists|q: u32| ss.contains(q)
}

pub proof fn lemma_nfa_consumed_le_len(t: NfaTableView, ss: Set<u32>, s: Seq<u8>)
    ensures
        t.consumed_from(ss, s) <= s.len(),
    decreases s.len(),
{
    if s.len() != 0 {
        let ns = t.step_set(ss, s[0]);
        if set_nonempty(ns) {
            lemma_nfa_consumed_le_len(t, ns, s.drop_first());
        }
    }
}

pub proof fn lemma_nfa_run_snoc(t: NfaTableView, ss: Set<u32>, s: Seq<u8>, i: int)
    requires
        0 <= i < s.len(),
    ensures
        t.run_exact(ss, s.take(i + 1)) == (match t.run_exact(ss, s.take(i)) {
            Some(mid) => {
                let ns = t.step_set(mid, s[i]);
                if set_nonempty(ns) {
                    Some(ns)
                } else {
                    None
                }
            },
            None => None,
        }),
    decreases i,
{
    if i == 0 {
        assert(s.take(0) =~= Seq::<u8>::empty());
        assert(t.run_exact(ss, s.take(0)) == Some(ss));
        assert(s.take(1)[0] == s[0]);
        assert(s.take(1).drop_first() =~= Seq::<u8>::empty());
        let ns = t.step_set(ss, s[0]);
        if set_nonempty(ns) {
            assert(t.run_exact(ns, s.take(1).drop_first()) == Some(ns));
            assert(t.run_exact(ss, s.take(1)) == Some(ns));
        } else {
            assert(t.run_exact(ss, s.take(1)) is None);
        }
    } else {
        let sd = s.drop_first();
        assert(s.take(i + 1)[0] == s[0]);
        assert(s.take(i)[0] == s[0]);
        assert(s.take(i + 1).drop_first() =~= sd.take(i));
        assert(s.take(i).drop_first() =~= sd.take(i - 1));
        let ns = t.step_set(ss, s[0]);
        if set_nonempty(ns) {
            lemma_nfa_run_snoc(t, ns, sd, i - 1);
            assert(sd[i - 1] == s[i]);
        }
    }
}

pub proof fn lemma_nfa_run_defined_iff_consumed(t: NfaTableView, ss: Set<u32>, s: Seq<u8>, j: int)
    requires
        0 <= j <= s.len(),
    ensures
        t.run_exact(ss, s.take(j)) is Some <==> j <= t.consumed_from(ss, s),
    decreases s.len(),
{
    if j == 0 {
        assert(s.take(0) =~= Seq::<u8>::empty());
    } else {
        assert(s.take(j)[0] == s[0]);
        let ns = t.step_set(ss, s[0]);
        if set_nonempty(ns) {
            assert(s.take(j).drop_first() =~= s.drop_first().take(j - 1));
            lemma_nfa_run_defined_iff_consumed(t, ns, s.drop_first(), j - 1);
        }
    }
}

proof fn lemma_nfa_best_match_plateau(t: NfaTableView, ss: Set<u32>, s: Seq<u8>, j: int, k: int)
    requires
        0 <= k <= j <= s.len(),
        forall|l: int| k < l <= j ==> !(#[trigger] t.accepts_at(ss, s, l)),
    ensures
        t.best_match_len(ss, s, j as nat) == t.best_match_len(ss, s, k as nat),
    decreases j - k,
{
    if j > k {
        lemma_nfa_best_match_plateau(t, ss, s, j - 1, k);
    }
}

/// A nondeterministic automaton together with the ephemeral state of one
/// simulation run over a set of current states.
#[derive(Debug, Clone)]
pub struct NFA {
    pub states: Vec<NfaStateRow>,
    pub len_alphabet: usize,
    pub matching: bool,
    pub will_not_match: bool,
    pub current_states: Vec<u32>,
    pub longest_accepting_match: Vec<u8>,
    pub current_read_sequence: Vec<u8>,
    pub alphabet: Vec<u8>,
    pub start_state_id: u32,
}

impl NFA {
    /// The table this automaton simulates.
    pub open spec fn table(self) -> NfaTableView {
        NfaTableView {
            rows: self.states@.map_values(|r: NfaStateRow| r@),
            alphabet: self.alphabet@,
            start: self.start_state_id,
        }
    }

    /// A well-formed automaton: its table is well-formed and the recorded
    /// alphabet length is the table width.
    pub open spec fn wf(self) -> bool {
        &&& self.table().wf()
        &&& self.len_alphabet == self.alphabet@.len()
    }

    /// Whether every current state lies inside the table.
    pub open spec fn current_ok(self) -> bool {
        forall|i: int|
            0 <= i < self.current_states@.len() ==> (#[trigger] self.current_states@[i])
                < self.states@.len()
    }

    /// Build an automaton from rows, an alphabet and a start state; the
    /// simulation state starts cleared. Fails exactly on an empty row
    /// sequence.
    pub fn new(states: Vec<NfaStateRow>, alphabet: Vec<u8>, start: u32) -> (r: Result<
        Self,
        crate::dfa::InvariantError,
    >)
        ensures
            r is Err <==> states@.len() == 0,
            r is Err ==> r->Err_0 == crate::dfa::InvariantError::EmptyStates,
            r is Ok ==> ({
                let n = r->Ok_0;
                &&& n.states@ == states@
                &&& n.alphabet@ == alphabet@
                &&& n.len_alphabet == states@[0]@.transitions.len()
                &&& n.matching == true
                &&& n.will_not_match == false
                &&& n.current_states@ == Seq::<u32>::empty()
                &&& n.longest_accepting_match@ == Seq::<u8>::empty()
                &&& n.current_read_sequence@ == Seq::<u8>::empty()
                &&& n.start_state_id == start
            }),
    {
        if states.len() == 0 {
            return Err(crate::dfa::InvariantError::EmptyStates);
        }
        let len_alphabet = states[0].transitions.len();
        Ok(
            NFA {
                states,
                len_alphabet,
                matching: true,
                will_not_match: false,
                current_states: Vec::new(),
                longest_accepting_match: Vec::new(),
                current_read_sequence: Vec::new(),
                alphabet,
                start_state_id: start,
            },
        )
    }

    /// The row holding the state of the given id, where the table has one.
    pub fn get_state(&self, id: u32) -> (r: Option<&NfaStateRow>)
        ensures
            id < self.states@.len() ==> r == Some(&self.states[id as int]),
            id >= self.states@.len() ==> r is None,
    {
        if (id as usize) < self.states.len() {
            Some(&self.states[id as usize])
        } else {
            None
        }
    }

    /// How many states the table holds.
    pub fn size(&self) -> (r: usize)
        ensures
            r == self.states@.len(),
    {
        self.states.len()
    }

    /// Whether the state of the given id is accepting; false for an id
    /// outside the table.
    pub fn state_is_accepting(&self, id: u32) -> (r: bool)
        ensures
            r == (id < self.states@.len() && self.states@[id as int]@.accepting),
    {
        match self.get_state(id) {
            Some(state) => state.accepting,
            None => false,
        }
    }

    /// Whether any current state accepts.
    pub fn is_accepting(&self) -> (r: bool)
        ensures
            r == self.table().set_accepting(self.current_states@.to_set()),
    {
        let mut i: usize = 0;
        while i < self.current_states.len()
            invariant
                i <= self.current_states@.len(),
                forall|j: int|
                    0 <= j < i ==> !((#[trigger] self.current_states@[j])
                        < self.states@.len() && self.states@[self.current_states@[j] as int]@.accepting),
            decreases self.current_states@.len() - i,
        {
            let id = self.current_states[i];
            if self.state_is_accepting(id) {
                proof {
                    assert(self.current_states@.to_set().contains(id));
                    assert(self.table().rows[id as int].accepting);
                }
                return true;
            }
            i = i + 1;
        }
        proof {
            if self.table().set_accepting(self.current_states@.to_set()) {
                let q = choose|q: u32|
                    self.current_states@.to_set().contains(q) && 0 <= q < self.table().rows.len()
                        && (#[trigger] self.table().rows[q as int]).accepting;
                let j = choose|j: int|
                    0 <= j < self.current_states@.len() && self.current_states@[j] == q;
                assert(!(self.current_states@[j] < self.states@.len() && self.states@[self.current_states@[j] as int]@.accepting));
            }
        }
        false
    }

    /// A copy of the current state set.
    pub fn get_current_states_id(&self) -> (r: Vec<u32>)
        ensures
            r@ == self.current_states@,
    {
        crate::dfa::copy_vec(&self.current_states)
    }

    /// Replace the current state set.
    pub fn set_current_states(&mut self, state_ids: Vec<u32>)
        ensures
            *final(self) == (NFA { current_states: state_ids, ..*old(self) }),
    {
        self.current_states = state_ids;
    }

    /// A copy of the longest accepted prefix the last simulation saw.
    pub fn get_longest_accepting_match(&self) -> (r: Vec<u8>)
        ensures
            r@ == self.longest_accepting_match@,
    {
        crate::dfa::copy_vec(&self.longest_accepting_match)
    }
}


fn vec_contains(v: &Vec<u32>, x: u32) -> (r: bool)
    ensures
        r == v@.contains(x),
{
    let mut i: usize = 0;
    while i < v.len()
        invariant
            i <= v@.len(),
            forall|j: int| 0 <= j < i ==> v@[j] != x,
        decreases v@.len() - i,
    {
        if v[i] == x {
            return true;
        }
        i = i + 1;
    }
    false
}

fn column_of(alphabet: &Vec<u8>, symbol: u8) -> (r: Option<usize>)
    ensures
        match r {
            Some(c) => alpha_index(alphabet@, symbol) == Some(c as int),
            None => alpha_index(alphabet@, symbol) is None,
        },
{
    let mut i: usize = 0;
    while i < alphabet.len()
        invariant
            i <= alphabet@.len(),
            forall|j: int| 0 <= j < i ==> alphabet@[j] != symbol,
        decreases alphabet@.len() - i,
    {
        if alphabet[i] == symbol {
            proof {
                crate::dfa::lemma_alpha_index_spec(alphabet@, symbol);
            }
            return Some(i);
        }
        i = i + 1;
    }
    proof {
        crate::dfa::lemma_alpha_index_spec(alphabet@, symbol);
    }
    None
}

/// Whether `x` is a destination on column `c` of some state among the
/// first `upto` entries of `cur`.
pub open spec fn gathered(t: NfaTableView, cur: Seq<u32>, upto: int, c: int, x: u32) -> bool {
    exists|qi: int|
        0 <= qi < upto && qi < cur.len() && (#[trigger] t.rows[cur[qi] as int].transitions[c]).contains(x)
}

impl NFA {
    /// Read one byte: move to the set of all states reachable on it, and
    /// remember the prefix read when that set holds an accepting state; go
    /// dead when the byte is outside the alphabet or the set would be
    /// empty.
    pub fn simulate_one_step(&mut self, symbol: u8)
        requires
            old(self).wf(),
            old(self).current_ok(),
        ensures
            final(self).wf(),
            final(self).table() == old(self).table(),
            final(self).len_alphabet == old(self).len_alphabet,
            final(self).matching == old(self).matching,
            final(self).current_ok(),
            final(self).start_state_id == old(self).start_state_id,
            ({
                let ns = old(self).table().step_set(old(self).current_states@.to_set(), symbol);
                if set_nonempty(ns) {
                    &&& final(self).will_not_match == old(self).will_not_match
                    &&& final(self).current_states@.to_set() == ns
                    &&& final(self).current_read_sequence@ == old(
                        self,
                    ).current_read_sequence@.push(symbol)
                    &&& (if old(self).table().set_accepting(ns) {
                        final(self).longest_accepting_match@ == final(self).current_read_sequence@
                    } else {
                        final(self).longest_accepting_match@ == old(self).longest_accepting_match@
                    })
                } else {
                    &&& final(self).will_not_match == true
                    &&& final(self).current_states@ == old(self).current_states@
                    &&& final(self).current_read_sequence@ == old(self).current_read_sequence@
                    &&& final(self).longest_accepting_match@ == old(self).longest_accepting_match@
                }
            }),
    {
        let ghost t = self.table();
        let ghost cur = self.current_states@;
        let symbol_index = match column_of(&self.alphabet, symbol) {
            Some(i) => i,
            None => {
                self.will_not_match = true;
                return ;
            },
        };
        proof {
            crate::dfa::lemma_alpha_index_spec(self.alphabet@, symbol);
        }
        let ghost c = symbol_index as int;
        let mut next_states: Vec<u32> = Vec::new();
        let mut si: usize = 0;
        while si < self.current_states.len()
            invariant
                self.wf(),
                self.current_ok(),
                t == self.table(),
                cur == self.current_states@,
                alpha_index(self.alphabet@, symbol) == Some(c),
                c == symbol_index as int,
                0 <= c < self.alphabet@.len(),
                si <= cur.len(),
                forall|x: u32| #[trigger] next_states@.contains(x) <==> gathered(
                    t,
                    cur,
                    si as int,
                    c,
                    x,
                ),
            decreases cur.len() - si,
        {
            let state_id = self.current_states[si];
            proof {
                assert(self.current_states@[si as int] < self.states@.len());
            }
            let row = &self.states[state_id as usize];
            proof {
                assert(row@ == t.rows[state_id as int]);
                assert(t.rows[state_id as int].transitions.len() == t.alphabet.len());
                assert(row.transitions@.len() == row@.transitions.len());
                assert(row@.transitions[c] == row.transitions@[c]@);
                assert(symbol_index < row.transitions@.len());
            }
            let targets = &row.transitions[symbol_index];
            let mut ti: usize = 0;
            while ti < targets.len()
                invariant
                    t == self.table(),
                    cur == self.current_states@,
                    si < cur.len(),
                    state_id == cur[si as int],
                    (state_id as int) < t.rows.len(),
                    c == symbol_index as int,
                    0 <= c < t.rows[state_id as int].transitions.len(),
                    targets@ == t.rows[state_id as int].transitions[c],
                    ti <= targets@.len(),
                    forall|x: u32| #[trigger] next_states@.contains(x) <==> (gathered(
                        t,
                        cur,
                        si as int,
                        c,
                        x,
                    ) || (exists|k: int| 0 <= k < ti && targets@[k] == x)),
                decreases targets@.len() - ti,
            {
                let tgt = targets[ti];
                if !vec_contains(&next_states, tgt) {
                    let ghost pre = next_states@;
                    next_states.push(tgt);
                    proof {
                        assert forall|x: u32| #[trigger] next_states@.contains(x) implies (
                        gathered(t, cur, si as int, c, x) || (exists|k: int|
                            0 <= k < ti + 1 && targets@[k] == x)) by {
                            if x == tgt {
                                assert(targets@[ti as int] == x);
                            } else {
                                let ix = choose|ix: int|
                                    0 <= ix < next_states@.len() && next_states@[ix] == x;
                                assert(pre[ix] == x);
                                assert(pre.contains(x));
                            }
                        }
                        assert forall|x: u32|
                            (gathered(t, cur, si as int, c, x) || (exists|k: int|
                                0 <= k < ti + 1 && targets@[k] == x)) implies #[trigger] next_states@.contains(
                            x,
                        ) by {
                            if x == tgt {
                                assert(next_states@[next_states@.len() - 1] == x);
                            } else {
                                assert(pre.contains(x));
                                let ix = choose|ix: int| 0 <= ix < pre.len() && pre[ix] == x;
                                assert(next_states@[ix] == x);
                            }
                        }
                    }
                } else {
                    proof {
                        assert forall|x: u32| #[trigger] next_states@.contains(x) <==> (gathered(
                            t,
                            cur,
                            si as int,
                            c,
                            x,
                        ) || (exists|k: int| 0 <= k < ti + 1 && targets@[k] == x)) by {
                            if x == tgt {
                                assert(next_states@.contains(tgt));
                            }
                        }
                    }
                }
                ti = ti + 1;
            }
            proof {
                assert forall|x: u32| #[trigger] next_states@.contains(x) <==> gathered(
                    t,
                    cur,
                    si + 1,
                    c,
                    x,
                ) by {
                    if next_states@.contains(x) {
                        if !gathered(t, cur, si as int, c, x) {
                            let k = choose|k: int| 0 <= k < targets@.len() && targets@[k] == x;
                            assert(t.rows[cur[si as int] as int].transitions[c].contains(x));
                        }
                    }
                    if gathered(t, cur, si + 1, c, x) {
                        let qi = choose|qi: int|
                            0 <= qi < si + 1 && qi < cur.len() && (#[trigger] t.rows[cur[qi] as int].transitions[c]).contains(x);
                        if qi < si {
                            assert(gathered(t, cur, si as int, c, x));
                        } else {
                            let k = choose|k: int|
                                0 <= k < targets@.len() && targets@[k] == x;
                            assert(exists|k2: int|
                                0 <= k2 < targets@.len() && targets@[k2] == x);
                        }
                    }
                }
            }
            si = si + 1;
        }
        let ghost ns = t.step_set(cur.to_set(), symbol);
        proof {
            assert forall|x: u32| #[trigger] next_states@.contains(x) <==> ns.contains(x) by {
                if next_states@.contains(x) {
                    let qi = choose|qi: int|
                        0 <= qi < cur.len() && (#[trigger] t.rows[cur[qi] as int].transitions[c]).contains(x);
                    assert(cur.to_set().contains(cur[qi]));
                }
                if ns.contains(x) {
                    let q = choose|q: u32|
                        cur.to_set().contains(q) && 0 <= q < t.rows.len() && 0 <= c < t.rows[q as int].transitions.len() && #[trigger] t.rows[q as int].transitions[c].contains(
                            x,
                        );
                    let qi = choose|qi: int| 0 <= qi < cur.len() && cur[qi] == q;
                    assert(t.rows[cur[qi] as int].transitions[c].contains(x));
                    assert(gathered(t, cur, cur.len() as int, c, x));
                }
            }
        }
        if next_states.len() > 0 {
            proof {
                assert(next_states@.contains(next_states@[0]));
                assert(ns.contains(next_states@[0]));
                assert(next_states@.to_set() =~= ns);
                assert forall|i: int|
                    0 <= i < next_states@.len() implies (#[trigger] next_states@[i])
                    < self.states@.len() by {
                    assert(next_states@.contains(next_states@[i]));
                    let qi = choose|qi: int|
                        0 <= qi < cur.len() && (#[trigger] t.rows[cur[qi] as int].transitions[c]).contains(next_states@[i]);
                    let k = choose|k: int|
                        0 <= k < t.rows[cur[qi] as int].transitions[c].len() && t.rows[cur[qi] as int].transitions[c][k] == next_states@[i];
                }
            }
            self.current_states = next_states;
            self.current_read_sequence.push(symbol);
            if self.is_accepting() {
                self.longest_accepting_match = crate::dfa::copy_vec(&self.current_read_sequence);
            }
        } else {
            proof {
                if set_nonempty(ns) {
                    let x = choose|x: u32| ns.contains(x);
                    assert(next_states@.contains(x));
                }
            }
            self.will_not_match = true;
        }
    }
}


/// The recorded match is maximal: no longer prefix reaches an accepting
/// state by an exact run.
pub proof fn lemma_nfa_best_match_is_longest(t: NfaTableView, ss: Set<u32>, s: Seq<u8>, upto: nat)
    requires
        upto <= s.len(),
    ensures
        t.best_match_len(ss, s, upto) <= upto,
        t.best_match_len(ss, s, upto) != 0 ==> t.accepts_at(
            ss,
            s,
            t.best_match_len(ss, s, upto) as int,
        ),
        forall|l: int|
            t.best_match_len(ss, s, upto) < l <= upto ==> !(#[trigger] t.accepts_at(ss, s, l)),
    decreases upto,
{
    if upto != 0 && !t.accepts_at(ss, s, upto as int) {
        lemma_nfa_best_match_is_longest(t, ss, s, (upto - 1) as nat);
    }
}

impl NFA {
    /// Reset the simulation to the start state's singleton set and read
    /// `input`, stopping where the state set would run empty. Afterwards
    /// the longest non-empty prefix whose run ends in an accepting set is
    /// recorded, and the result says whether the set standing at the stop
    /// holds an accepting state.
    pub fn simulate(&mut self, input: &[u8]) -> (r: bool)
        requires
            old(self).wf(),
        ensures
            final(self).wf(),
            final(self).table() == old(self).table(),
            final(self).len_alphabet == old(self).len_alphabet,
            final(self).matching == true,
            final(self).current_ok(),
            ({
                let t = old(self).table();
                let start = Set::<u32>::empty().insert(old(self).start_state_id);
                let k = t.consumed_from(start, input@);
                &&& final(self).current_read_sequence@ == input@.take(k as int)
                &&& final(self).longest_accepting_match@ == input@.take(
                    t.best_match_len(start, input@, input@.len()) as int,
                )
                &&& final(self).will_not_match == (k < input@.len())
                &&& t.run_exact(start, input@.take(k as int)) == Some(
                    final(self).current_states@.to_set(),
                )
                &&& r == t.set_accepting(final(self).current_states@.to_set())
            }),
    {
        self.current_states = Vec::new();
        self.current_states.push(self.start_state_id);
        self.matching = true;
        self.will_not_match = false;
        self.longest_accepting_match = Vec::new();
        self.current_read_sequence = Vec::new();
        let ghost t = self.table();
        let ghost start = Set::<u32>::empty().insert(self.start_state_id);
        let ghost s = input@;
        let ghost k = t.consumed_from(start, s);
        proof {
            lemma_nfa_consumed_le_len(t, start, s);
            assert(s.take(0) =~= Seq::<u8>::empty());
            assert forall|y: u32| self.current_states@.to_set().contains(y) == start.contains(
                y,
            ) by {
                if self.current_states@.to_set().contains(y) {
                    let ix = choose|ix: int|
                        0 <= ix < self.current_states@.len() && self.current_states@[ix] == y;
                    assert(ix == 0);
                }
                if start.contains(y) {
                    assert(self.current_states@[0] == y);
                    assert(self.current_states@.contains(y));
                }
            }
            assert(self.current_states@.to_set() =~= start);
        }
        let mut i: usize = 0;
        while i < input.len() && !self.will_not_match
            invariant
                t == old(self).table(),
                start == Set::<u32>::empty().insert(old(self).start_state_id),
                self.wf(),
                self.current_ok(),
                self.table() == t,
                s == input@,
                k == t.consumed_from(start, s),
                k <= s.len(),
                i <= s.len(),
                self.matching == true,
                self.len_alphabet == old(self).len_alphabet,
                !self.will_not_match ==> {
                    &&& i <= k
                    &&& self.current_read_sequence@ == s.take(i as int)
                    &&& t.run_exact(start, s.take(i as int)) == Some(
                        self.current_states@.to_set(),
                    )
                    &&& self.longest_accepting_match@ == s.take(
                        t.best_match_len(start, s, i as nat) as int,
                    )
                },
                self.will_not_match ==> {
                    &&& i == k + 1
                    &&& k < s.len()
                    &&& self.current_read_sequence@ == s.take(k as int)
                    &&& t.run_exact(start, s.take(k as int)) == Some(
                        self.current_states@.to_set(),
                    )
                    &&& self.longest_accepting_match@ == s.take(
                        t.best_match_len(start, s, k as nat) as int,
                    )
                },
            decreases s.len() - i,
        {
            let ghost pre = *self;
            self.simulate_one_step(input[i]);
            proof {
                lemma_nfa_run_snoc(t, start, s, i as int);
                lemma_nfa_run_defined_iff_consumed(t, start, s, i + 1);
                let ns = t.step_set(pre.current_states@.to_set(), s[i as int]);
                if set_nonempty(ns) {
                    assert(t.run_exact(start, s.take(i + 1)) == Some(ns));
                    assert(i + 1 <= k);
                    assert(s.take(i + 1) =~= s.take(i as int).push(s[i as int]));
                    assert(t.accepts_at(start, s, i + 1) == t.set_accepting(ns));
                } else {
                    assert(t.run_exact(start, s.take(i + 1)) is None);
                    assert(k <= i);
                }
            }
            i = i + 1;
        }
        proof {
            lemma_nfa_best_match_is_longest(t, start, s, s.len());
            if !self.will_not_match {
                assert(i == s.len());
                lemma_nfa_run_defined_iff_consumed(t, start, s, s.len() as int);
                assert(s.take(s.len() as int) =~= s);
                assert(k == s.len());
            } else {
                assert forall|l: int| k < l <= s.len() implies !(#[trigger] t.accepts_at(
                    start,
                    s,
                    l,
                )) by {
                    lemma_nfa_run_defined_iff_consumed(t, start, s, l);
                }
                lemma_nfa_best_match_plateau(t, start, s, s.len() as int, k as int);
            }
        }
        self.is_accepting()
    }
}


/// `x` placed into a sorted id list, before the first id not below it.
pub open spec fn insert_sorted_spec(x: u32, s: Seq<u32>) -> Seq<u32>
    decreases s.len(),
{
    if s.len() == 0 {
        seq![x]
    } else if x <= s[0] {
        seq![x] + s
    } else {
        seq![s[0]] + insert_sorted_spec(x, s.drop_first())
    }
}

/// An id list sorted ascending by repeated insertion.
pub open spec fn sort_ids_spec(s: Seq<u32>) -> Seq<u32>
    decreases s.len(),
{
    if s.len() == 0 {
        s
    } else {
        insert_sorted_spec(s[0], sort_ids_spec(s.drop_first()))
    }
}

fn insert_sorted(x: u32, s: Vec<u32>) -> (r: Vec<u32>)
    ensures
        r@ == insert_sorted_spec(x, s@),
    decreases s@.len(),
{
    let ghost s0 = s@;
    if s.len() == 0 {
        let mut r: Vec<u32> = Vec::new();
        r.push(x);
        proof {
            assert(r@ =~= insert_sorted_spec(x, s0));
        }
        r
    } else if x <= s[0] {
        let mut r = s;
        r.insert(0, x);
        proof {
            assert(r@ =~= seq![x] + s0);
        }
        r
    } else {
        let mut s = s;
        let head = s.remove(0);
        proof {
            assert(s@ =~= s0.drop_first());
        }
        let rest = insert_sorted(x, s);
        let mut r = rest;
        r.insert(0, head);
        proof {
            assert(r@ =~= seq![s0[0]] + insert_sorted_spec(x, s0.drop_first()));
        }
        r
    }
}

fn sort_ids(v: &Vec<u32>, from: usize) -> (r: Vec<u32>)
    requires
        from <= v@.len(),
    ensures
        r@ == sort_ids_spec(v@.skip(from as int)),
    decreases v@.len() - from,
{
    if from == v.len() {
        proof {
            assert(v@.skip(from as int) =~= Seq::<u32>::empty());
        }
        Vec::new()
    } else {
        let rest = sort_ids(v, from + 1);
        proof {
            assert(v@.skip(from as int)[0] == v@[from as int]);
            assert(v@.skip(from as int).drop_first() =~= v@.skip(from as int + 1));
        }
        insert_sorted(v[from], rest)
    }
}

/// What a sorted id list prints to: decimal ids joined by commas.
pub open spec fn join_ids(ts: Seq<u32>) -> Seq<u8>
    decreases ts.len(),
{
    if ts.len() == 0 {
        Seq::empty()
    } else if ts.len() == 1 {
        crate::textfmt::dec_digits(ts[0] as nat)
    } else {
        crate::textfmt::dec_digits(ts[0] as nat) + seq![0x2cu8] + join_ids(ts.drop_first())
    }
}

/// What one transition entry prints to: `E` when empty, else its ids
/// sorted ascending and joined by commas.
pub open spec fn print_nfa_entry(ts: Seq<u32>) -> Seq<u8> {
    if ts.len() == 0 {
        seq![0x45u8]
    } else {
        join_ids(sort_ids_spec(ts))
    }
}

/// What a row's entries print to: each one with a space after it.
pub open spec fn print_nfa_entries(ts: Seq<Seq<u32>>) -> Seq<u8>
    decreases ts.len(),
{
    if ts.len() == 0 {
        Seq::empty()
    } else {
        print_nfa_entry(ts[0]) + seq![0x20u8] + print_nfa_entries(ts.drop_first())
    }
}

/// The acceptance sign a printed row opens with: the flag of the state the
/// row's id names, `-` where the id lies outside the table.
pub open spec fn nfa_sign(rows: Seq<NfaRowView>, id: u32) -> u8 {
    if id < rows.len() && rows[id as int].accepting {
        0x2bu8
    } else {
        0x2du8
    }
}

/// What one row prints to.
pub open spec fn print_nfa_row(rows: Seq<NfaRowView>, r: NfaRowView) -> Seq<u8> {
    seq![nfa_sign(rows, r.state_id)] + seq![0x20u8] + crate::textfmt::dec_digits(
        r.state_id as nat,
    ) + seq![0x20u8] + print_nfa_entries(r.transitions) + seq![0x0au8]
}

/// What a table prints to: its rows in order.
pub open spec fn print_nfa_table(rows: Seq<NfaRowView>) -> Seq<u8>
    decreases rows.len(),
{
    if rows.len() == 0 {
        Seq::empty()
    } else {
        print_nfa_row(rows, rows[0]) + print_nfa_table_from(rows, rows.drop_first())
    }
}

/// The rows still to print, signed against the whole table.
pub open spec fn print_nfa_table_from(rows: Seq<NfaRowView>, rest: Seq<NfaRowView>) -> Seq<u8>
    decreases rest.len(),
{
    if rest.len() == 0 {
        Seq::empty()
    } else {
        print_nfa_row(rows, rest[0]) + print_nfa_table_from(rows, rest.drop_first())
    }
}

proof fn lemma_print_nfa_entries_push(ts: Seq<Seq<u32>>, c: int)
    requires
        0 <= c < ts.len(),
    ensures
        print_nfa_entries(ts.take(c + 1)) == print_nfa_entries(ts.take(c)) + print_nfa_entry(
            ts[c],
        ) + seq![0x20u8],
    decreases c,
{
    let a = ts.take(c + 1);
    let b = ts.take(c);
    if c == 0 {
        assert(a.drop_first() =~= Seq::<Seq<u32>>::empty());
        assert(b =~= Seq::<Seq<u32>>::empty());
        assert(print_nfa_entries(a) =~= print_nfa_entries(b) + print_nfa_entry(ts[0])
            + seq![0x20u8]);
    } else {
        lemma_print_nfa_entries_push(ts.drop_first(), c - 1);
        assert(a.drop_first() =~= ts.drop_first().take(c));
        assert(b.drop_first() =~= ts.drop_first().take(c - 1));
        assert(print_nfa_entries(a) =~= print_nfa_entries(b) + print_nfa_entry(ts[c])
            + seq![0x20u8]);
    }
}

proof fn lemma_print_nfa_table_push(rows: Seq<NfaRowView>, i: int)
    requires
        0 <= i < rows.len(),
    ensures
        print_nfa_table_from(rows, rows.take(i + 1)) == print_nfa_table_from(rows, rows.take(i))
            + print_nfa_row(rows, rows[i]),
    decreases i,
{
    let a = rows.take(i + 1);
    let b = rows.take(i);
    if i == 0 {
        assert(a.drop_first() =~= Seq::<NfaRowView>::empty());
        assert(b =~= Seq::<NfaRowView>::empty());
        assert(print_nfa_table_from(rows, a) =~= print_nfa_table_from(rows, b) + print_nfa_row(
            rows,
            rows[0],
        ));
    } else {
        lemma_print_nfa_table_push_inner(rows, rows.drop_first(), i - 1);
        assert(a.drop_first() =~= rows.drop_first().take(i));
        assert(b.drop_first() =~= rows.drop_first().take(i - 1));
        assert(print_nfa_table_from(rows, a) =~= print_nfa_table_from(rows, b) + print_nfa_row(
            rows,
            rows[i],
        ));
    }
}

proof fn lemma_print_nfa_table_push_inner(rows: Seq<NfaRowView>, rest: Seq<NfaRowView>, i: int)
    requires
        0 <= i < rest.len(),
    ensures
        print_nfa_table_from(rows, rest.take(i + 1)) == print_nfa_table_from(rows, rest.take(i))
            + print_nfa_row(rows, rest[i]),
    decreases i,
{
    let a = rest.take(i + 1);
    let b = rest.take(i);
    if i == 0 {
        assert(a.drop_first() =~= Seq::<NfaRowView>::empty());
        assert(b =~= Seq::<NfaRowView>::empty());
        assert(print_nfa_table_from(rows, a) =~= print_nfa_table_from(rows, b) + print_nfa_row(
            rows,
            rest[0],
        ));
    } else {
        lemma_print_nfa_table_push_inner(rows, rest.drop_first(), i - 1);
        assert(a.drop_first() =~= rest.drop_first().take(i));
        assert(b.drop_first() =~= rest.drop_first().take(i - 1));
        assert(print_nfa_table_from(rows, a) =~= print_nfa_table_from(rows, b) + print_nfa_row(
            rows,
            rest[i],
        ));
    }
}

fn render_entry(targets: &Vec<u32>) -> (r: Vec<u8>)
    ensures
        r@ == print_nfa_entry(targets@),
{
    if targets.len() == 0 {
        let mut r: Vec<u8> = Vec::new();
        r.push(0x45);
        proof {
            assert(r@ =~= seq![0x45u8]);
        }
        return r;
    }
    let ghost whole = targets@;
    let sorted = sort_ids(targets, 0);
    proof {
        assert(whole.skip(0) =~= whole);
    }
    let mut r: Vec<u8> = Vec::new();
    let mut i: usize = 0;
    let ghost srt = sorted@;
    proof {
        assert(srt.skip(0) =~= srt);
        assert(r@ + join_ids(srt) =~= join_ids(srt));
    }
    while i < sorted.len()
        invariant
            srt == sorted@,
            i <= srt.len(),
            r@ + join_ids(srt.skip(i as int)) == join_ids(srt),
        decreases srt.len() - i,
    {
        proof {
            assert(srt.skip(i as int)[0] == srt[i as int]);
            assert(srt.skip(i as int).drop_first() =~= srt.skip(i as int + 1));
        }
        let digits = crate::textfmt::u32_to_decimal(sorted[i]);
        crate::table::append_bytes(&mut r, &digits);
        if i + 1 < sorted.len() {
            r.push(0x2c);
        }
        proof {
            if i + 1 < srt.len() {
                assert(srt.skip(i as int).len() > 1);
                assert(r@ + join_ids(srt.skip(i as int + 1)) =~= join_ids(srt));
            } else {
                assert(srt.skip(i as int).len() == 1);
                assert(join_ids(srt.skip(i as int + 1)) =~= Seq::<u8>::empty());
                assert(r@ + join_ids(srt.skip(i as int + 1)) =~= join_ids(srt));
            }
        }
        i = i + 1;
    }
    proof {
        assert(join_ids(srt.skip(i as int)) =~= Seq::<u8>::empty());
        assert(r@ + Seq::<u8>::empty() =~= r@);
        assert(print_nfa_entry(whole) == join_ids(srt));
    }
    r
}

impl NFA {
    /// Print the table, one line per state: the acceptance sign, the state
    /// id, and each transition entry as its sorted comma-joined ids, with
    /// `E` for an empty entry, space-separated.
    pub fn print(&self) -> (r: Vec<u8>)
        ensures
            r@ == print_nfa_table(self.table().rows),
    {
        let ghost rows = self.table().rows;
        let mut output: Vec<u8> = Vec::new();
        let mut i: usize = 0;
        proof {
            assert(rows.take(0) =~= Seq::<NfaRowView>::empty());
            assert(output@ =~= print_nfa_table_from(rows, rows.take(0)));
        }
        while i < self.states.len()
            invariant
                rows == self.table().rows,
                i <= self.states@.len(),
                output@ == print_nfa_table_from(rows, rows.take(i as int)),
            decreases self.states@.len() - i,
        {
            let row = &self.states[i];
            proof {
                assert(rows[i as int] == row@);
            }
            if self.state_is_accepting(row.state_id) {
                output.push(0x2b);
            } else {
                output.push(0x2d);
            }
            output.push(0x20);
            let id_text = crate::textfmt::u32_to_decimal(row.state_id);
            crate::table::append_bytes(&mut output, &id_text);
            output.push(0x20);
            let ghost ts = row@.transitions;
            let ghost head = print_nfa_table_from(rows, rows.take(i as int))
                + seq![nfa_sign(rows, row@.state_id)] + seq![0x20u8] + crate::textfmt::dec_digits(
                row@.state_id as nat,
            ) + seq![0x20u8];
            proof {
                assert(nfa_sign(rows, row@.state_id) == (if row.state_id < self.states@.len()
                    && self.states@[row.state_id as int]@.accepting {
                    0x2bu8
                } else {
                    0x2du8
                }));
                assert(output@ =~= head + print_nfa_entries(ts.take(0)));
                assert(ts.take(0) =~= Seq::<Seq<u32>>::empty());
            }
            let mut c: usize = 0;
            while c < row.transitions.len()
                invariant
                    c <= row.transitions@.len(),
                    ts == row@.transitions,
                    *row == self.states@[i as int],
                    i < self.states@.len(),
                    output@ == head + print_nfa_entries(ts.take(c as int)),
                decreases row.transitions@.len() - c,
            {
                proof {
                    assert(ts[c as int] == row.transitions@[c as int]@);
                }
                let entry_text = render_entry(&row.transitions[c]);
                crate::table::append_bytes(&mut output, &entry_text);
                output.push(0x20);
                proof {
                    lemma_print_nfa_entries_push(ts, c as int);
                    assert(output@ =~= head + print_nfa_entries(ts.take(c + 1)));
                }
                c = c + 1;
            }
            output.push(0x0a);
            proof {
                assert(ts.take(ts.len() as int) =~= ts);
                lemma_print_nfa_table_push(rows, i as int);
                assert(output@ =~= print_nfa_table_from(rows, rows.take(i + 1)));
            }
            i = i + 1;
        }
        proof {
            assert(rows.take(i as int) =~= rows);
            if rows.len() > 0 {
                assert(rows.drop_first() =~= rows.take(rows.len() as int).drop_first());
                assert(print_nfa_table(rows) == print_nfa_row(rows, rows[0])
                    + print_nfa_table_from(rows, rows.drop_first()));
                assert(rows.take(rows.len() as int) =~= seq![rows[0]] + rows.drop_first());
            } else {
                assert(print_nfa_table(rows) =~= Seq::<u8>::empty());
            }
        }
        output
    }
}

} // verus!
