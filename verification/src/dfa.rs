//! Deterministic finite automata over a finite byte alphabet with possibly
//! partial transition functions: the state table, longest-accepting-prefix
//! simulation, and partition-refinement minimization.

use vstd::prelude::*;

verus! {

/// The one internal fault a constructor reports.
#[derive(Debug, Clone, Copy, PartialEq, Eq, Structural)]
pub enum InvariantError {
    /// The automaton was handed an empty state table.
    EmptyStates,
}

/// One row of the transition table: the row at position i of a table holds
/// state i, and each entry of `transitions` is the destination on one
/// alphabet column, or `None` where no transition exists.
#[derive(Debug, Clone, PartialEq, Eq)]
pub struct StateRow {
    pub accepting: bool,
    pub state_id: u32,
    pub transitions: Vec<Option<u32>>,
}

/// The mathematical content of a state row.
#[verifier::ext_equal]
pub ghost struct RowView {
    pub accepting: bool,
    pub state_id: u32,
    pub transitions: Seq<Option<u32>>,
}

impl View for StateRow {
    type V = RowView;

    open spec fn view(&self) -> RowView {
        RowView {
            accepting: self.accepting,
            state_id: self.state_id,
            transitions: self.transitions@,
        }
    }
}

/// The mathematical content of an automaton: its rows and its alphabet,
/// the parts that simulation and minimization are judged against.
#[verifier::ext_equal]
pub ghost struct TableView {
    pub rows: Seq<RowView>,
    pub alphabet: Seq<u8>,
}

/// The first position of `b` in `a`, if any.
pub open spec fn alpha_index(a: Seq<u8>, b: u8) -> Option<int>
    decreases a.len(),
{
    if a.len() == 0 {
        None
    } else if a[0] == b {
        Some(0)
    } else {
        match alpha_index(a.drop_first(), b) {
            Some(i) => Some(i + 1),
            None => None,
        }
    }
}

pub proof fn lemma_alpha_index_spec(a: Seq<u8>, b: u8)
    ensures
        match alpha_index(a, b) {
            Some(i) => 0 <= i < a.len() && a[i] == b && forall|j: int| 0 <= j < i ==> a[j] != b,
            None => forall|j: int| 0 <= j < a.len() ==> a[j] != b,
        },
    decreases a.len(),
{
    if a.len() == 0 {
    } else if a[0] == b {
    } else {
        lemma_alpha_index_spec(a.drop_first(), b);
        assert forall|j: int| 1 <= j < a.len() implies a[j] == a.drop_first()[j - 1] by {}
    }
}

impl TableView {
    /// A well-formed table: non-empty, all rows as wide as the alphabet,
    /// ids equal to row positions, and destinations inside the table.
    pub open spec fn wf(self) -> bool {
        &&& self.rows.len() > 0
        &&& forall|i: int|
            0 <= i < self.rows.len() ==> (#[trigger] self.rows[i]).transitions.len()
                == self.alphabet.len()
        &&& forall|i: int| 0 <= i < self.rows.len() ==> (#[trigger] self.rows[i]).state_id == i
        &&& forall|i: int, c: int|
            0 <= i < self.rows.len() && 0 <= c < self.alphabet.len() ==> ((
            #[trigger] self.rows[i].transitions[c]) matches Some(t) ==> t < self.rows.len())
    }

    /// One transition: `None` when the byte is outside the alphabet or the
    /// row holds no destination on its column.
    pub open spec fn step(self, q: int, b: u8) -> Option<int> {
        match alpha_index(self.alphabet, b) {
            None => None,
            Some(c) => match self.rows[q].transitions[c] {
                Some(t) => Some(t as int),
                None => None,
            },
        }
    }

    /// The state after reading all of `s` from `q`, or `None` where some
    /// transition was missing.
    pub open spec fn run(self, q: int, s: Seq<u8>) -> Option<int>
        decreases s.len(),
    {
        if s.len() == 0 {
            Some(q)
        } else {
            match self.step(q, s[0]) {
                None => None,
                Some(q2) => self.run(q2, s.drop_first()),
            }
        }
    }

    /// Whether the whole of `s`, read from the start state, ends in an
    /// accepting state.
    pub open spec fn accepts(self, s: Seq<u8>) -> bool {
        match self.run(0, s) {
            Some(q) => self.rows[q].accepting,
            None => false,
        }
    }

    /// The length of the longest non-empty accepted prefix of `s` among the
    /// first `upto` prefixes, or 0 where none is accepted.
    pub open spec fn best_match_len(self, s: Seq<u8>, upto: nat) -> nat
        decreases upto,
    {
        if upto == 0 {
            0
        } else if self.accepts(s.take(upto as int)) {
            upto
        } else {
            self.best_match_len(s, (upto - 1) as nat)
        }
    }

    /// How many bytes of `s` a run from `q` reads before the first missing
    /// transition; all of `s` when none is missing.
    pub open spec fn consumed_from(self, q: int, s: Seq<u8>) -> nat
        decreases s.len(),
    {
        if s.len() == 0 {
            0
        } else {
            match self.step(q, s[0]) {
                None => 0,
                Some(q2) => 1 + self.consumed_from(q2, s.drop_first()),
            }
        }
    }
}

pub proof fn lemma_consumed_le_len(t: TableView, q: int, s: Seq<u8>)
    ensures
        t.consumed_from(q, s) <= s.len(),
    decreases s.len(),
{
    if s.len() != 0 {
        match t.step(q, s[0]) {
            None => {},
            Some(q2) => {
                lemma_consumed_le_len(t, q2, s.drop_first());
            },
        }
    }
}

pub proof fn lemma_run_snoc(t: TableView, q: int, s: Seq<u8>, i: int)
    requires
        0 <= i < s.len(),
    ensures
        t.run(q, s.take(i + 1)) == (match t.run(q, s.take(i)) {
            Some(m) => t.step(m, s[i]),
            None => None,
        }),
    decreases i,
{
    if i == 0 {
        assert(s.take(0) =~= Seq::<u8>::empty());
        assert(t.run(q, s.take(0)) == Some(q));
        assert(s.take(1)[0] == s[0]);
        assert(s.take(1).drop_first() =~= Seq::<u8>::empty());
        match t.step(q, s[0]) {
            None => {
                assert(t.run(q, s.take(1)) is None);
            },
            Some(q2) => {
                assert(t.run(q2, s.take(1).drop_first()) == Some(q2));
                assert(t.run(q, s.take(1)) == Some(q2));
            },
        }
    } else {
        let sd = s.drop_first();
        assert(s.take(i + 1)[0] == s[0]);
        assert(s.take(i)[0] == s[0]);
        assert(s.take(i + 1).drop_first() =~= sd.take(i));
        assert(s.take(i).drop_first() =~= sd.take(i - 1));
        match t.step(q, s[0]) {
            None => {},
            Some(m) => {
                lemma_run_snoc(t, m, sd, i - 1);
                assert(sd[i - 1] == s[i]);
            },
        }
    }
}

pub proof fn lemma_run_defined_iff_consumed(t: TableView, q: int, s: Seq<u8>, j: int)
    requires
        0 <= j <= s.len(),
    ensures
        t.run(q, s.take(j)) is Some <==> j <= t.consumed_from(q, s),
    decreases s.len(),
{
    if j == 0 {
        assert(s.take(0) =~= Seq::<u8>::empty());
    } else {
        assert(s.take(j)[0] == s[0]);
        match t.step(q, s[0]) {
            None => {},
            Some(q2) => {
                assert(s.take(j).drop_first() =~= s.drop_first().take(j - 1));
                lemma_run_defined_iff_consumed(t, q2, s.drop_first(), j - 1);
            },
        }
    }
}

proof fn lemma_best_match_plateau(t: TableView, s: Seq<u8>, j: int, k: int)
    requires
        0 <= k <= j <= s.len(),
        forall|l: int| k < l <= j ==> !t.accepts(s.take(l)),
    ensures
        t.best_match_len(s, j as nat) == t.best_match_len(s, k as nat),
    decreases j - k,
{
    if j > k {
        lemma_best_match_plateau(t, s, j - 1, k);
    }
}

/// The recorded match is maximal: it is a prefix no longer than `s`, it is
/// accepted when non-empty, and no strictly longer prefix of `s` is accepted.
pub proof fn lemma_best_match_is_longest(t: TableView, s: Seq<u8>, upto: nat)
    requires
        upto <= s.len(),
    ensures
        t.best_match_len(s, upto) <= upto,
        t.best_match_len(s, upto) != 0 ==> t.accepts(s.take(t.best_match_len(s, upto) as int)),
        forall|l: int| t.best_match_len(s, upto) < l <= upto ==> !t.accepts(s.take(l)),
    decreases upto,
{
    if upto != 0 && !t.accepts(s.take(upto as int)) {
        lemma_best_match_is_longest(t, s, (upto - 1) as nat);
    }
}

/// One destination after a row removal: a reference to the removed state is
/// redirected to the kept one (or dropped), and ids past the removed row
/// shift down by one.
pub open spec fn remove_rename(d: Option<u32>, removed: u32, kept: Option<u32>) -> Option<u32> {
    match d {
        Some(t) => if t == removed {
            kept
        } else if t > removed {
            Some((t - 1) as u32)
        } else {
            Some(t)
        },
        None => None,
    }
}

/// The rows after removing one row: the row leaves, ids become positions
/// again, and every destination is renamed by `remove_rename`.
pub open spec fn spec_remove_rows(rows: Seq<RowView>, removed: int, kept: Option<u32>) -> Seq<
    RowView,
> {
    rows.remove(removed).map(
        |i: int, r: RowView|
            RowView {
                accepting: r.accepting,
                state_id: i as u32,
                transitions: r.transitions.map_values(
                    |d: Option<u32>| remove_rename(d, removed as u32, kept),
                ),
            },
    )
}

/// One destination after redirecting every reference from one state to
/// another.
pub open spec fn redirect_dest(d: Option<u32>, from: u32, to: u32) -> Option<u32> {
    match d {
        Some(t) => if t == from {
            Some(to)
        } else {
            Some(t)
        },
        None => None,
    }
}

/// The rows after redirecting every reference from one state to another.
pub open spec fn spec_redirect_rows(rows: Seq<RowView>, from: u32, to: u32) -> Seq<RowView> {
    rows.map_values(
        |r: RowView|
            RowView {
                accepting: r.accepting,
                state_id: r.state_id,
                transitions: r.transitions.map_values(
                    |d: Option<u32>| redirect_dest(d, from, to),
                ),
            },
    )
}

/// The rows after merging `s2` into `s1`: references to `s2` move to `s1`,
/// then row `s2` is removed.
pub open spec fn spec_merge_rows(rows: Seq<RowView>, s1: u32, s2: u32) -> Seq<RowView> {
    spec_remove_rows(spec_redirect_rows(rows, s2, s1), s2 as int, Some(s1))
}

/// Whether two states of a table agree on acceptance and on every
/// transition column at or past `from`.
pub open spec fn states_agree_from(t: TableView, p: u32, q: u32, from: int) -> bool {
    &&& t.rows[p as int].accepting == t.rows[q as int].accepting
    &&& forall|c: int|
        from <= c < t.alphabet.len() ==> #[trigger] t.rows[p as int].transitions[c] == t.rows[q as int].transitions[c]
}

/// Pairwise agreement of a whole group of states from column `from` on.
pub open spec fn group_agrees_from(t: TableView, g: Seq<u32>, from: int) -> bool {
    forall|a: int, b: int|
        0 <= a < g.len() && 0 <= b < g.len() ==> #[trigger] states_agree_from(t, g[a], g[b], from)
}

/// A group the refinement found indistinguishable: distinct live states
/// that agree on acceptance and on every column — at least two of them.
pub open spec fn good_merge_set(t: TableView, g: Seq<u32>) -> bool {
    &&& g.len() >= 2
    &&& g.no_duplicates()
    &&& forall|i: int| 0 <= i < g.len() ==> (#[trigger] g[i]) < t.rows.len()
    &&& group_agrees_from(t, g, 0)
}

/// Distinct live states that agree pairwise from column `from` on.
pub open spec fn part_ok(t: TableView, g: Seq<u32>, from: int) -> bool {
    &&& g.no_duplicates()
    &&& forall|i: int| 0 <= i < g.len() ==> (#[trigger] g[i]) < t.rows.len()
    &&& group_agrees_from(t, g, from)
}

/// The members of `g` whose transition on column `c` is `d`, in order.
pub open spec fn with_dest(t: TableView, g: Seq<u32>, c: int, d: Option<u32>) -> Seq<u32>
    decreases g.len(),
{
    if g.len() == 0 {
        Seq::empty()
    } else {
        let rest = with_dest(t, g.drop_last(), c, d);
        if t.rows[g.last() as int].transitions[c] == d {
            rest.push(g.last())
        } else {
            rest
        }
    }
}

proof fn lemma_with_dest_props(t: TableView, g: Seq<u32>, c: int, d: Option<u32>)
    ensures
        forall|x: u32|
            #[trigger] with_dest(t, g, c, d).contains(x) ==> g.contains(x) && t.rows[x as int].transitions[c] == d,
        g.no_duplicates() ==> with_dest(t, g, c, d).no_duplicates(),
        forall|i: int|
            0 <= i < g.len() && t.rows[(#[trigger] g[i]) as int].transitions[c] == d ==> with_dest(
                t,
                g,
                c,
                d,
            ).contains(g[i]),
    decreases g.len(),
{
    if g.len() == 0 {
    } else {
        let gd = g.drop_last();
        lemma_with_dest_props(t, gd, c, d);
        let rest = with_dest(t, gd, c, d);
        let last = g.last();
        assert forall|x: u32| #[trigger] with_dest(t, g, c, d).contains(x) implies g.contains(x)
            && t.rows[x as int].transitions[c] == d by {
            if t.rows[last as int].transitions[c] == d && x == last {
                assert(g[g.len() - 1] == x);
            } else {
                let ix = choose|ix: int|
                    0 <= ix < with_dest(t, g, c, d).len() && with_dest(t, g, c, d)[ix] == x;
                assert(rest[ix] == x);
                assert(rest.contains(x));
                let gx = choose|gx: int| 0 <= gx < gd.len() && gd[gx] == x;
                assert(g[gx] == x);
            }
        }
        if g.no_duplicates() {
            assert(gd.no_duplicates()) by {
                assert forall|a: int, b: int|
                    0 <= a < gd.len() && 0 <= b < gd.len() && a != b implies gd[a] != gd[b] by {
                    assert(g[a] != g[b]);
                }
            }
            if t.rows[last as int].transitions[c] == d {
                assert(!rest.contains(last)) by {
                    if rest.contains(last) {
                        let ix = choose|ix: int| 0 <= ix < gd.len() && gd[ix] == last;
                        assert(g[ix] == g[g.len() - 1]);
                    }
                }
                let w = rest.push(last);
                assert forall|a: int, b: int|
                    0 <= a < w.len() && 0 <= b < w.len() && a != b implies w[a] != w[b] by {
                    if a < w.len() - 1 && b < w.len() - 1 {
                        assert(rest[a] == w[a] && rest[b] == w[b]);
                    } else if a == w.len() - 1 {
                        assert(rest.contains(rest[b]));
                    } else {
                        assert(rest.contains(rest[a]));
                    }
                }
            }
        }
        assert forall|i: int|
            0 <= i < g.len() && t.rows[(#[trigger] g[i]) as int].transitions[c]
                == d implies with_dest(t, g, c, d).contains(g[i]) by {
            if i < g.len() - 1 {
                assert(gd[i] == g[i]);
                assert(rest.contains(g[i]));
                let ix = choose|ix: int| 0 <= ix < rest.len() && rest[ix] == g[i];
                assert(with_dest(t, g, c, d)[ix] == g[i]);
            } else {
                let w = with_dest(t, g, c, d);
                assert(w[w.len() - 1] == g[i]);
            }
        }
    }
}

proof fn lemma_with_dest_absent(t: TableView, g: Seq<u32>, c: int, d: Option<u32>)
    requires
        forall|i: int| 0 <= i < g.len() ==> t.rows[(#[trigger] g[i]) as int].transitions[c] != d,
    ensures
        with_dest(t, g, c, d) == Seq::<u32>::empty(),
    decreases g.len(),
{
    if g.len() != 0 {
        assert(g[g.len() - 1] == g.last());
        assert forall|i: int|
            0 <= i < g.drop_last().len() implies t.rows[(#[trigger] g.drop_last()[i]) as int].transitions[c]
            != d by {
            assert(g[i] == g.drop_last()[i]);
        }
        lemma_with_dest_absent(t, g.drop_last(), c, d);
    }
}

proof fn lemma_with_dest_push(t: TableView, g: Seq<u32>, i: int, c: int, d: Option<u32>)
    requires
        0 <= i < g.len(),
    ensures
        with_dest(t, g.take(i + 1), c, d) == (if t.rows[g[i] as int].transitions[c] == d {
            with_dest(t, g.take(i), c, d).push(g[i])
        } else {
            with_dest(t, g.take(i), c, d)
        }),
{
    assert(g.take(i + 1).drop_last() =~= g.take(i));
    assert(g.take(i + 1).last() == g[i]);
}

/// The position a surviving state takes after row `b` is merged away into
/// `a`.
pub open spec fn merge_rho(q: int, a: int, b: int) -> int {
    if q == b {
        a
    } else if q > b {
        q - 1
    } else {
        q
    }
}

/// Conditions under which merging `b` into `a` is sound: `a` comes first,
/// and the two rows agree on acceptance and on every transition.
pub open spec fn merge_ok(t: TableView, t2: TableView, a: int, b: int) -> bool {
    &&& t.wf()
    &&& 0 <= a < b < t.rows.len()
    &&& t.rows.len() <= u32::MAX + 1
    &&& t.rows[a].accepting == t.rows[b].accepting
    &&& t.rows[a].transitions == t.rows[b].transitions
    &&& t2.alphabet == t.alphabet
    &&& t2.rows == spec_merge_rows(t.rows, a as u32, b as u32)
}

proof fn lemma_merge_row(t: TableView, t2: TableView, a: int, b: int, q: int)
    requires
        merge_ok(t, t2, a, b),
        0 <= q < t.rows.len(),
    ensures
        t2.rows.len() == t.rows.len() - 1,
        0 <= merge_rho(q, a, b) < t2.rows.len(),
        t2.rows[merge_rho(q, a, b)].accepting == t.rows[q].accepting,
        t2.rows[merge_rho(q, a, b)].transitions.len() == t.rows[q].transitions.len(),
        forall|c: int|
            0 <= c < t.rows[q].transitions.len()
                ==> #[trigger] t2.rows[merge_rho(q, a, b)].transitions[c] == remove_rename(
                redirect_dest(t.rows[q].transitions[c], b as u32, a as u32),
                b as u32,
                Some(a as u32),
            ),
{
    let rq = merge_rho(q, a, b);
    let redirected = spec_redirect_rows(t.rows, b as u32, a as u32);
    redirected.remove_ensures(b);
    let source = if q == b {
        a
    } else {
        q
    };
    assert(redirected.remove(b)[rq] == redirected[source]);
    assert(redirected[source] == (RowView {
        accepting: t.rows[source].accepting,
        state_id: t.rows[source].state_id,
        transitions: t.rows[source].transitions.map_values(
            |d: Option<u32>| redirect_dest(d, b as u32, a as u32),
        ),
    }));
    if q == b {
        assert(t.rows[source].accepting == t.rows[q].accepting);
        assert(t.rows[source].transitions == t.rows[q].transitions);
    }
}

proof fn lemma_merge_step(t: TableView, t2: TableView, a: int, b: int, q: int, x: u8)
    requires
        merge_ok(t, t2, a, b),
        0 <= q < t.rows.len(),
    ensures
        match t.step(q, x) {
            Some(m) => 0 <= m < t.rows.len() && t2.step(merge_rho(q, a, b), x) == Some(
                merge_rho(m, a, b),
            ),
            None => t2.step(merge_rho(q, a, b), x) is None,
        },
{
    lemma_merge_row(t, t2, a, b, q);
    let rq = merge_rho(q, a, b);
    match alpha_index(t.alphabet, x) {
        None => {},
        Some(c) => {
            lemma_alpha_index_spec(t.alphabet, x);
            assert(t.rows[q].transitions.len() == t.alphabet.len());
            match t.rows[q].transitions[c] {
                None => {
                    assert(t2.rows[rq].transitions[c] is None);
                },
                Some(tt) => {
                    assert(tt < t.rows.len());
                    assert(t2.rows[rq].transitions[c] == remove_rename(
                        redirect_dest(Some(tt), b as u32, a as u32),
                        b as u32,
                        Some(a as u32),
                    ));
                    assert(t2.rows[rq].transitions[c] == Some(merge_rho(tt as int, a, b) as u32));
                },
            }
        },
    }
}

proof fn lemma_merge_run(t: TableView, t2: TableView, a: int, b: int, q: int, s: Seq<u8>)
    requires
        merge_ok(t, t2, a, b),
        0 <= q < t.rows.len(),
    ensures
        match t.run(q, s) {
            Some(m) => 0 <= m < t.rows.len() && t2.run(merge_rho(q, a, b), s) == Some(
                merge_rho(m, a, b),
            ),
            None => t2.run(merge_rho(q, a, b), s) is None,
        },
    decreases s.len(),
{
    if s.len() == 0 {
    } else {
        lemma_merge_step(t, t2, a, b, q, s[0]);
        match t.step(q, s[0]) {
            None => {},
            Some(m) => {
                lemma_merge_run(t, t2, a, b, m, s.drop_first());
            },
        }
    }
}

/// Merging a state into another with the same acceptance and the same
/// transition row changes no answer of the automaton: the new table accepts
/// exactly the strings the old one accepted.
pub proof fn lemma_merge_preserves_language(
    t: TableView,
    t2: TableView,
    a: int,
    b: int,
    s: Seq<u8>,
)
    requires
        merge_ok(t, t2, a, b),
    ensures
        t2.accepts(s) == t.accepts(s),
{
    lemma_merge_run(t, t2, a, b, 0, s);
    assert(merge_rho(0, a, b) == 0);
    match t.run(0, s) {
        None => {},
        Some(m) => {
            lemma_merge_row(t, t2, a, b, m);
        },
    }
}

/// Merging a state into an equivalent one keeps the table well-formed.
pub proof fn lemma_merge_preserves_wf(t: TableView, t2: TableView, a: int, b: int)
    requires
        merge_ok(t, t2, a, b),
    ensures
        t2.wf(),
        t2.rows.len() == t.rows.len() - 1,
{
    assert forall|i: int| 0 <= i < t2.rows.len() implies (#[trigger] t2.rows[i]).transitions.len()
        == t2.alphabet.len() && t2.rows[i].state_id == i by {
        let q = if i < b {
            i
        } else {
            i + 1
        };
        lemma_merge_row(t, t2, a, b, q);
        assert(merge_rho(q, a, b) == i);
    }
    assert forall|i: int, c: int|
        0 <= i < t2.rows.len() && 0 <= c < t2.alphabet.len() implies ((
    #[trigger] t2.rows[i].transitions[c]) matches Some(tt) ==> tt < t2.rows.len()) by {
        let q = if i < b {
            i
        } else {
            i + 1
        };
        lemma_merge_row(t, t2, a, b, q);
        assert(merge_rho(q, a, b) == i);
        assert(t.rows[q].transitions.len() == t.alphabet.len());
        match t.rows[q].transitions[c] {
            None => {},
            Some(tt) => {
                assert(tt < t.rows.len());
                assert(t2.rows[i].transitions[c] == Some(merge_rho(tt as int, a, b) as u32));
            },
        }
    }
}

/// A deterministic finite automaton together with the ephemeral state of one
/// simulation run: the position reached, the bytes consumed, and the longest
/// accepted prefix seen.
#[derive(Debug, Clone)]
pub struct DFA {
    pub states: Vec<StateRow>,
    pub len_alphabet: usize,
    pub self_is_accepting: bool,
    pub matching: bool,
    pub will_not_match: bool,
    pub current_state: usize,
    pub longest_accepting_match: Vec<u8>,
    pub current_read_sequence: Vec<u8>,
    pub alphabet: Vec<u8>,
}

/// Everything of an automaton except its state table: the alphabet, the
/// recorded width, and the ephemeral simulation state.
pub open spec fn same_but_states(d1: DFA, d2: DFA) -> bool {
    &&& d1.len_alphabet == d2.len_alphabet
    &&& d1.alphabet@ == d2.alphabet@
    &&& d1.self_is_accepting == d2.self_is_accepting
    &&& d1.matching == d2.matching
    &&& d1.will_not_match == d2.will_not_match
    &&& d1.current_state == d2.current_state
    &&& d1.longest_accepting_match@ == d2.longest_accepting_match@
    &&& d1.current_read_sequence@ == d2.current_read_sequence@
}

pub(crate) fn copy_vec<T: Copy>(src: &Vec<T>) -> (r: Vec<T>)
    ensures
        r@ == src@,
{
    let mut r: Vec<T> = Vec::new();
    let mut i: usize = 0;
    while i < src.len()
        invariant
            i <= src@.len(),
            r@ == src@.take(i as int),
        decreases src@.len() - i,
    {
        r.push(src[i]);
        proof {
            assert(src@.take(i + 1) =~= src@.take(i as int).push(src@[i as int]));
        }
        i = i + 1;
    }
    proof {
        assert(src@.take(i as int) =~= src@);
    }
    r
}

impl DFA {
    /// The table this automaton simulates and minimization transforms.
    pub open spec fn table(self) -> TableView {
        TableView {
            rows: self.states@.map_values(|r: StateRow| r@),
            alphabet: self.alphabet@,
        }
    }

    /// A well-formed automaton: its table is well-formed and the recorded
    /// alphabet length is the table width.
    pub open spec fn wf(self) -> bool {
        &&& self.table().wf()
        &&& self.len_alphabet == self.alphabet@.len()
    }

    /// Build an automaton from rows and an alphabet; the simulation state
    /// starts cleared. Fails exactly on an empty row sequence.
    pub fn new(states: Vec<StateRow>, alphabet: Vec<u8>) -> (r: Result<Self, InvariantError>)
        ensures
            r is Err <==> states@.len() == 0,
            r is Err ==> r->Err_0 == InvariantError::EmptyStates,
            r is Ok ==> ({
                let d = r->Ok_0;
                &&& d.states@ == states@
                &&& d.alphabet@ == alphabet@
                &&& d.len_alphabet == states@[0]@.transitions.len()
                &&& d.self_is_accepting == states@[0]@.accepting
                &&& d.matching == true
                &&& d.will_not_match == false
                &&& d.current_state == 0
                &&& d.longest_accepting_match@ == Seq::<u8>::empty()
                &&& d.current_read_sequence@ == Seq::<u8>::empty()
            }),
    {
        if states.len() == 0 {
            return Err(InvariantError::EmptyStates);
        }
        let len_alphabet = states[0].transitions.len();
        let self_is_accepting = states[0].accepting;
        Ok(
            DFA {
                states,
                len_alphabet,
                self_is_accepting,
                matching: true,
                will_not_match: false,
                current_state: 0,
                longest_accepting_match: Vec::new(),
                current_read_sequence: Vec::new(),
                alphabet,
            },
        )
    }

    /// The row holding the state of the given id, where the table has one.
    pub fn get_state(&self, id: u32) -> (r: Option<&StateRow>)
        ensures
            id < self.states@.len() ==> r == Some(&self.states[id as int]),
            id >= self.states@.len() ==> r is None,
    {
        if (id as usize) < self.states.len() {
            Some(&self.states[id as usize])
        } else {
            None
        }
    }

    /// How many states the table holds.
    pub fn size(&self) -> (r: usize)
        ensures
            r == self.states@.len(),
    {
        self.states.len()
    }

    /// How many states the table holds.
    pub fn num_states(&self) -> (r: usize)
        ensures
            r == self.states@.len(),
    {
        self.states.len()
    }

    /// Whether the state of the given id is accepting; false for an id
    /// outside the table.
    pub fn state_is_accepting(&self, id: u32) -> (r: bool)
        ensures
            r == (id < self.states@.len() && self.states@[id as int]@.accepting),
    {
        match self.get_state(id) {
            Some(state) => state.accepting,
            None => false,
        }
    }

    /// Whether the state of the given id is accepting; false for an id
    /// outside the table.
    pub fn is_accepting(&self, id: u32) -> (r: bool)
        ensures
            r == (id < self.states@.len() && self.states@[id as int]@.accepting),
    {
        self.state_is_accepting(id)
    }

    /// Whether the last simulation ever reached an accepting state.
    pub fn self_is_accepting(&self) -> (r: bool)
        ensures
            r == self.self_is_accepting,
    {
        self.self_is_accepting
    }

    /// The state the simulation currently stands in.
    pub fn get_current_state_id(&self) -> (r: usize)
        ensures
            r == self.current_state,
    {
        self.current_state
    }

    /// Move the simulation to the given state.
    pub fn set_current_state(&mut self, state_id: u32)
        ensures
            *final(self) == (DFA { current_state: state_id as usize, ..*old(self) }),
    {
        self.current_state = state_id as usize;
    }

    /// A copy of the longest accepted prefix the last simulation saw.
    pub fn get_longest_accepting_match(&self) -> (r: Vec<u8>)
        ensures
            r@ == self.longest_accepting_match@,
    {
        copy_vec(&self.longest_accepting_match)
    }

    /// The alphabet column of a byte, where the byte is in the alphabet.
    fn alphabet_lookup(&self, symbol: u8) -> (r: Option<usize>)
        ensures
            match r {
                Some(c) => alpha_index(self.alphabet@, symbol) == Some(c as int),
                None => alpha_index(self.alphabet@, symbol) is None,
            },
    {
        let mut i: usize = 0;
        while i < self.alphabet.len()
            invariant
                i <= self.alphabet@.len(),
                forall|j: int| 0 <= j < i ==> self.alphabet@[j] != symbol,
            decreases self.alphabet@.len() - i,
        {
            if self.alphabet[i] == symbol {
                proof {
                    lemma_alpha_index_spec(self.alphabet@, symbol);
                }
                return Some(i);
            }
            i = i + 1;
        }
        proof {
            lemma_alpha_index_spec(self.alphabet@, symbol);
        }
        None
    }

    /// Read one byte: advance along the transition for it, remember the
    /// prefix read when the new state accepts, or go dead when the byte is
    /// outside the alphabet or the row holds no destination for it.
    pub fn simulate_one_step(&mut self, symbol: u8)
        requires
            old(self).wf(),
            old(self).current_state < old(self).states@.len(),
        ensures
            final(self).wf(),
            final(self).table() == old(self).table(),
            final(self).len_alphabet == old(self).len_alphabet,
            final(self).matching == old(self).matching,
            (match old(self).table().step(old(self).current_state as int, symbol) {
                None => {
                    &&& final(self).will_not_match == true
                    &&& final(self).current_state == old(self).current_state
                    &&& final(self).current_read_sequence@ == old(self).current_read_sequence@
                    &&& final(self).longest_accepting_match@
                        == old(self).longest_accepting_match@
                    &&& final(self).self_is_accepting == old(self).self_is_accepting
                },
                Some(q2) => {
                    &&& final(self).will_not_match == old(self).will_not_match
                    &&& final(self).current_state == q2
                    &&& final(self).current_read_sequence@
                        == old(self).current_read_sequence@.push(symbol)
                    &&& (if old(self).table().rows[q2].accepting {
                        final(self).self_is_accepting == true
                            && final(self).longest_accepting_match@
                            == final(self).current_read_sequence@
                    } else {
                        final(self).self_is_accepting == old(self).self_is_accepting
                            && final(self).longest_accepting_match@
                            == old(self).longest_accepting_match@
                    })
                },
            }),
    {
        let symbol_index = match self.alphabet_lookup(symbol) {
            Some(i) => i,
            None => {
                self.will_not_match = true;
                return ;
            },
        };
        proof {
            lemma_alpha_index_spec(self.alphabet@, symbol);
        }
        let next_state = self.states[self.current_state].transitions[symbol_index];
        match next_state {
            Some(next) => {
                self.current_state = next as usize;
                self.current_read_sequence.push(symbol);
                if self.states[self.current_state].accepting {
                    self.self_is_accepting = true;
                    self.longest_accepting_match = copy_vec(&self.current_read_sequence);
                }
            },
            None => {
                self.will_not_match = true;
            },
        }
    }

    /// Reset the simulation state and read `input` from the start state,
    /// stopping at the first missing transition. Afterwards the longest
    /// accepted non-empty prefix of `input` is recorded, and the result says
    /// whether there was one.
    pub fn simulate(&mut self, input: &[u8]) -> (r: bool)
        requires
            old(self).wf(),
        ensures
            final(self).wf(),
            final(self).table() == old(self).table(),
            final(self).len_alphabet == old(self).len_alphabet,
            final(self).matching == true,
            final(self).current_read_sequence@ == input@.take(
                old(self).table().consumed_from(0, input@) as int,
            ),
            final(self).longest_accepting_match@ == input@.take(
                old(self).table().best_match_len(input@, input@.len()) as int,
            ),
            final(self).self_is_accepting == (old(self).table().best_match_len(input@, input@.len())
                > 0),
            r == (old(self).table().best_match_len(input@, input@.len()) > 0),
            final(self).will_not_match == (old(self).table().consumed_from(0, input@)
                < input@.len()),
            final(self).current_state < final(self).states@.len(),
            Some(final(self).current_state as int) == old(self).table().run(
                0,
                input@.take(old(self).table().consumed_from(0, input@) as int),
            ),
    {
        if self.current_state != 0 {
            self.current_state = 0;
        }
        self.self_is_accepting = false;
        self.matching = true;
        self.will_not_match = false;
        self.longest_accepting_match = Vec::new();
        self.current_read_sequence = Vec::new();

        let ghost t = self.table();
        let ghost s = input@;
        let ghost k = t.consumed_from(0, s);
        proof {
            lemma_consumed_le_len(t, 0, s);
            assert(s.take(0) =~= Seq::<u8>::empty());
        }

        let mut i: usize = 0;
        while i < input.len() && !self.will_not_match
            invariant
                self.wf(),
                self.table() == t,
                self.len_alphabet == old(self).len_alphabet,
                self.matching == true,
                s == input@,
                k == t.consumed_from(0, s),
                k <= s.len(),
                i <= s.len(),
                self.current_state < self.states@.len(),
                !self.will_not_match ==> {
                    &&& i <= k
                    &&& self.current_read_sequence@ == s.take(i as int)
                    &&& Some(self.current_state as int) == t.run(0, s.take(i as int))
                    &&& self.longest_accepting_match@ == s.take(
                        t.best_match_len(s, i as nat) as int,
                    )
                    &&& self.self_is_accepting == (t.best_match_len(s, i as nat) > 0)
                },
                self.will_not_match ==> {
                    &&& i == k + 1
                    &&& k < s.len()
                    &&& self.current_read_sequence@ == s.take(k as int)
                    &&& Some(self.current_state as int) == t.run(0, s.take(k as int))
                    &&& self.longest_accepting_match@ == s.take(
                        t.best_match_len(s, k as nat) as int,
                    )
                    &&& self.self_is_accepting == (t.best_match_len(s, k as nat) > 0)
                },
            decreases s.len() - i,
        {
            let ghost pre = *self;
            self.simulate_one_step(input[i]);
            proof {
                lemma_run_snoc(t, 0, s, i as int);
                lemma_run_defined_iff_consumed(t, 0, s, i + 1);
                match t.step(pre.current_state as int, s[i as int]) {
                    None => {
                        assert(t.run(0, s.take(i + 1)) is None);
                        assert(k <= i);
                    },
                    Some(q2) => {
                        lemma_alpha_index_spec(t.alphabet, s[i as int]);
                        assert(q2 < t.rows.len());
                        assert(t.run(0, s.take(i + 1)) == Some(q2));
                        assert(i + 1 <= k);
                        assert(s.take(i + 1) =~= s.take(i as int).push(s[i as int]));
                        assert(t.best_match_len(s, (i + 1) as nat) == (if t.accepts(
                            s.take(i + 1),
                        ) {
                            (i + 1) as nat
                        } else {
                            t.best_match_len(s, i as nat)
                        }));
                    },
                }
            }
            i = i + 1;
        }
        proof {
            lemma_best_match_is_longest(t, s, s.len());
            if !self.will_not_match {
                assert(i == s.len());
                lemma_run_defined_iff_consumed(t, 0, s, s.len() as int);
                assert(s.take(s.len() as int) =~= s);
                assert(k == s.len());
            } else {
                assert forall|l: int| k < l <= s.len() implies !t.accepts(s.take(l)) by {
                    lemma_run_defined_iff_consumed(t, 0, s, l);
                }
                lemma_best_match_plateau(t, s, s.len() as int, k as int);
            }
        }
        self.longest_accepting_match.len() > 0
    }

    /// Remove one row: later rows shift down, ids become positions again,
    /// references to the removed state are redirected to `state_to_keep` (or
    /// dropped), and larger destinations decrement by one.
    pub fn remove_state(&mut self, state_to_remove: usize, state_to_keep: Option<usize>)
        requires
            state_to_remove < old(self).states@.len(),
            old(self).states@.len() <= u32::MAX + 1,
            (match state_to_keep {
                Some(k) => k <= u32::MAX,
                None => true,
            }),
        ensures
            final(self).states@.map_values(|r: StateRow| r@) == spec_remove_rows(
                old(self).states@.map_values(|r: StateRow| r@),
                state_to_remove as int,
                (match state_to_keep {
                    Some(k) => Some(k as u32),
                    None => None,
                }),
            ),
            final(self).alphabet@ == old(self).alphabet@,
            final(self).len_alphabet == old(self).len_alphabet,
            final(self).self_is_accepting == old(self).self_is_accepting,
            final(self).matching == old(self).matching,
            final(self).will_not_match == old(self).will_not_match,
            final(self).current_state == old(self).current_state,
            final(self).longest_accepting_match@ == old(self).longest_accepting_match@,
            final(self).current_read_sequence@ == old(self).current_read_sequence@,
    {
        let ghost old_rows = old(self).states@.map_values(|r: StateRow| r@);
        let ghost kept: Option<u32> = match state_to_keep {
            Some(k) => Some(k as u32),
            None => None,
        };
        self.states.remove(state_to_remove);
        proof {
            assert(self.states@.map_values(|r: StateRow| r@) =~= old_rows.remove(
                state_to_remove as int,
            ));
        }
        let mut new_states: Vec<StateRow> = Vec::new();
        let mut i: usize = 0;
        while i < self.states.len()
            invariant
                i <= self.states@.len(),
                self.states@.map_values(|r: StateRow| r@) == old_rows.remove(
                    state_to_remove as int,
                ),
                state_to_remove < old_rows.len() <= u32::MAX + 1,
                (match state_to_keep {
                    Some(k) => kept == Some(k as u32) && k <= u32::MAX,
                    None => kept is None,
                }),
                new_states@.len() == i,
                forall|j: int|
                    0 <= j < i ==> (#[trigger] new_states@[j])@ == spec_remove_rows(
                        old_rows,
                        state_to_remove as int,
                        kept,
                    )[j],
            decreases self.states@.len() - i,
        {
            let row = &self.states[i];
            let mut new_transitions: Vec<Option<u32>> = Vec::new();
            let mut c: usize = 0;
            while c < row.transitions.len()
                invariant
                    c <= row.transitions@.len(),
                    state_to_remove <= u32::MAX,
                    (match state_to_keep {
                        Some(k) => kept == Some(k as u32) && k <= u32::MAX,
                        None => kept is None,
                    }),
                    new_transitions@ == row.transitions@.take(c as int).map_values(
                        |d: Option<u32>| remove_rename(d, state_to_remove as u32, kept),
                    ),
                decreases row.transitions@.len() - c,
            {
                let d = row.transitions[c];
                let nd: Option<u32> = match d {
                    Some(t) => {
                        if t as usize == state_to_remove {
                            match state_to_keep {
                                Some(k) => Some(k as u32),
                                None => None,
                            }
                        } else if t as usize > state_to_remove {
                            Some(t - 1)
                        } else {
                            Some(t)
                        }
                    },
                    None => None,
                };
                assert(nd == remove_rename(d, state_to_remove as u32, kept));
                new_transitions.push(nd);
                proof {
                    assert(row.transitions@.take(c + 1) =~= row.transitions@.take(c as int).push(
                        d,
                    ));
                    assert(row.transitions@.take(c + 1).map_values(
                        |d: Option<u32>| remove_rename(d, state_to_remove as u32, kept),
                    ) =~= row.transitions@.take(c as int).map_values(
                        |d: Option<u32>| remove_rename(d, state_to_remove as u32, kept),
                    ).push(remove_rename(d, state_to_remove as u32, kept)));
                }
                c = c + 1;
            }
            proof {
                assert(row.transitions@.take(c as int) =~= row.transitions@);
            }
            let new_row = StateRow {
                accepting: row.accepting,
                state_id: i as u32,
                transitions: new_transitions,
            };
            new_states.push(new_row);
            proof {
                let target = spec_remove_rows(old_rows, state_to_remove as int, kept);
                assert(old_rows.remove(state_to_remove as int)[i as int] == self.states@.map_values(
                    |r: StateRow| r@,
                )[i as int]);
                assert(new_transitions@ =~= target[i as int].transitions);
                assert(target[i as int] == new_row@);
            }
            i = i + 1;
        }
        self.states = new_states;
        proof {
            assert(self.states@.map_values(|r: StateRow| r@) =~= spec_remove_rows(
                old_rows,
                state_to_remove as int,
                kept,
            ));
        }
    }

    /// Merge two equivalent states: every reference to `state2` moves to
    /// `state1`, then row `state2` is removed.
    fn merge_states(&mut self, state1: u32, state2: u32)
        requires
            (state2 as int) < old(self).states@.len(),
            old(self).states@.len() <= u32::MAX + 1,
        ensures
            final(self).states@.map_values(|r: StateRow| r@) == spec_merge_rows(
                old(self).states@.map_values(|r: StateRow| r@),
                state1,
                state2,
            ),
            final(self).alphabet@ == old(self).alphabet@,
            final(self).len_alphabet == old(self).len_alphabet,
            final(self).self_is_accepting == old(self).self_is_accepting,
            final(self).matching == old(self).matching,
            final(self).will_not_match == old(self).will_not_match,
            final(self).current_state == old(self).current_state,
            final(self).longest_accepting_match@ == old(self).longest_accepting_match@,
            final(self).current_read_sequence@ == old(self).current_read_sequence@,
    {
        let ghost old_rows = old(self).states@.map_values(|r: StateRow| r@);
        let ghost orig_states = old(self).states@;
        let mut new_states: Vec<StateRow> = Vec::new();
        let mut i: usize = 0;
        while i < self.states.len()
            invariant
                i <= self.states@.len(),
                self.states@ == orig_states,
                old_rows == orig_states.map_values(|r: StateRow| r@),
                new_states@.len() == i,
                forall|j: int|
                    0 <= j < i ==> (#[trigger] new_states@[j])@ == spec_redirect_rows(
                        old_rows,
                        state2,
                        state1,
                    )[j],
            decreases self.states@.len() - i,
        {
            let row = &self.states[i];
            let mut new_transitions: Vec<Option<u32>> = Vec::new();
            let mut c: usize = 0;
            while c < row.transitions.len()
                invariant
                    c <= row.transitions@.len(),
                    new_transitions@ == row.transitions@.take(c as int).map_values(
                        |d: Option<u32>| redirect_dest(d, state2, state1),
                    ),
                decreases row.transitions@.len() - c,
            {
                let d = row.transitions[c];
                let nd: Option<u32> = match d {
                    Some(t) => {
                        if t == state2 {
                            Some(state1)
                        } else {
                            Some(t)
                        }
                    },
                    None => None,
                };
                assert(nd == redirect_dest(d, state2, state1));
                new_transitions.push(nd);
                proof {
                    assert(row.transitions@.take(c + 1) =~= row.transitions@.take(c as int).push(
                        d,
                    ));
                    assert(row.transitions@.take(c + 1).map_values(
                        |d: Option<u32>| redirect_dest(d, state2, state1),
                    ) =~= row.transitions@.take(c as int).map_values(
                        |d: Option<u32>| redirect_dest(d, state2, state1),
                    ).push(redirect_dest(d, state2, state1)));
                }
                c = c + 1;
            }
            proof {
                assert(row.transitions@.take(c as int) =~= row.transitions@);
            }
            let new_row = StateRow {
                accepting: row.accepting,
                state_id: row.state_id,
                transitions: new_transitions,
            };
            new_states.push(new_row);
            proof {
                let target = spec_redirect_rows(old_rows, state2, state1);
                assert(old_rows[i as int] == self.states@.map_values(|r: StateRow| r@)[i as int]);
                assert(new_transitions@ =~= target[i as int].transitions);
                assert(target[i as int] == new_row@);
            }
            i = i + 1;
        }
        self.states = new_states;
        proof {
            assert(self.states@.map_values(|r: StateRow| r@) =~= spec_redirect_rows(
                old_rows,
                state2,
                state1,
            ));
        }
        self.remove_state(state2 as usize, Some(state1 as usize));
    }

    /// Whether two states carry the same acceptance flag and the same
    /// transition row, so that merging them cannot change the language.
    fn rows_agree(&self, a: u32, b: u32) -> (r: bool)
        requires
            (a as int) < self.states@.len(),
            (b as int) < self.states@.len(),
        ensures
            r == (self.states@[a as int]@.accepting == self.states@[b as int]@.accepting
                && self.states@[a as int]@.transitions == self.states@[b as int]@.transitions),
    {
        let ra = &self.states[a as usize];
        let rb = &self.states[b as usize];
        if ra.accepting != rb.accepting {
            return false;
        }
        if ra.transitions.len() != rb.transitions.len() {
            assert(ra.transitions@.len() != rb.transitions@.len());
            return false;
        }
        let mut c: usize = 0;
        while c < ra.transitions.len()
            invariant
                (a as int) < self.states@.len(),
                (b as int) < self.states@.len(),
                *ra == self.states@[a as int],
                *rb == self.states@[b as int],
                ra.accepting == rb.accepting,
                c <= ra.transitions@.len(),
                ra.transitions@.len() == rb.transitions@.len(),
                forall|j: int| 0 <= j < c ==> ra.transitions@[j] == rb.transitions@[j],
            decreases ra.transitions@.len() - c,
        {
            let da = ra.transitions[c];
            let db = rb.transitions[c];
            let eq = match (da, db) {
                (None, None) => true,
                (Some(x), Some(y)) => x == y,
                _ => false,
            };
            if !eq {
                assert(ra.transitions@[c as int] != rb.transitions@[c as int]);
                return false;
            }
            c = c + 1;
        }
        proof {
            assert(ra.transitions@ =~= rb.transitions@);
        }
        true
    }

    /// Refine one part of the state partition: split it by the destination
    /// on the last remaining column, and either record each still-plural
    /// group as a merge set (no columns left) or refine it further over the
    /// earlier columns. Every set recorded holds at least two distinct live
    /// states that agree on acceptance and on every column; and any two
    /// distinct states of the part that so agree land in one set together.
    fn refine_partition(&self, group: Vec<u32>, chars: Vec<usize>, merge_sets: &mut Vec<Vec<u32>>)
        requires
            self.wf(),
            chars@.len() <= self.alphabet@.len(),
            forall|i: int| 0 <= i < chars@.len() ==> (#[trigger] chars@[i]) == i,
            forall|i: int| 0 <= i < group@.len() ==> (#[trigger] group@[i]) < self.states@.len(),
            group@.no_duplicates(),
            group_agrees_from(self.table(), group@, chars@.len() as int),
        ensures
            final(merge_sets)@.len() >= old(merge_sets)@.len(),
            forall|g2: int|
                0 <= g2 < old(merge_sets)@.len() ==> final(merge_sets)@[g2] == #[trigger] old(merge_sets)@[g2],
            forall|g2: int|
                old(merge_sets)@.len() <= g2 < final(merge_sets)@.len() ==> good_merge_set(
                    self.table(),
                    (#[trigger] final(merge_sets)@[g2])@,
                ),
            forall|pi: int, qi: int|
                0 <= pi < qi < group@.len() && chars@.len() > 0 && #[trigger] states_agree_from(
                    self.table(),
                    group@[pi],
                    group@[qi],
                    0,
                ) ==> exists|g2: int|
                    old(merge_sets)@.len() <= g2 < final(merge_sets)@.len() && (
                    #[trigger] final(merge_sets)@[g2])@.contains(group@[pi]) && final(merge_sets)@[g2]@.contains(group@[qi]),
        decreases chars@.len(),
    {
        let ghost t = self.table();
        let ghost ms0 = merge_sets@;
        if chars.len() == 0 {
            return ;
        }
        let mut chars = chars;
        let c = chars.pop().unwrap();
        let ghost chars_len = chars@.len();
        proof {
            assert(c == chars_len);
        }

        // group the states of this part by their destination on column c
        let mut partitions: Vec<(Option<u32>, Vec<u32>)> = Vec::new();
        let mut gi: usize = 0;
        #[verifier::loop_isolation(false)]
        while gi < group.len()
            invariant
                gi <= group@.len(),
                forall|b: int|
                    0 <= b < partitions@.len() ==> (#[trigger] partitions@[b]).1@ == with_dest(
                        t,
                        group@.take(gi as int),
                        c as int,
                        partitions@[b].0,
                    ),
                forall|b1: int, b2: int|
                    0 <= b1 < b2 < partitions@.len() ==> partitions@[b1].0 != partitions@[b2].0,
                forall|gj: int|
                    0 <= gj < gi ==> exists|b: int|
                        0 <= b < partitions@.len() && (#[trigger] partitions@[b]).0 == t.rows[(
                        #[trigger] group@[gj]) as int].transitions[c as int],
            decreases group@.len() - gi,
        {
            let s = group[gi];
            let row = &self.states[s as usize];
            proof {
                assert(row@ == t.rows[s as int]);
                assert(t.rows[s as int].transitions.len() == t.alphabet.len());
            }
            let dest: Option<u32> = row.transitions[c];
            proof {
                assert(dest == t.rows[s as int].transitions[c as int]);
            }
            let mut idx_opt: Option<usize> = None;
            let mut pi: usize = 0;
            #[verifier::loop_isolation(false)]
            while pi < partitions.len()
                invariant
                    pi <= partitions@.len(),
                    (match idx_opt {
                        Some(k) => k < partitions@.len() && partitions@[k as int].0 == dest,
                        None => forall|b: int| 0 <= b < pi ==> partitions@[b].0 != dest,
                    }),
                decreases partitions@.len() - pi,
            {
                let key = partitions[pi].0;
                let key_eq = match (key, dest) {
                    (None, None) => true,
                    (Some(x), Some(y)) => x == y,
                    _ => false,
                };
                proof {
                    assert(key_eq == (partitions@[pi as int].0 == dest));
                }
                if key_eq && idx_opt.is_none() {
                    idx_opt = Some(pi);
                }
                pi = pi + 1;
            }
            let ghost pre_partitions = partitions@;
            match idx_opt {
                Some(k) => {
                    let mut entry = partitions.remove(k);
                    entry.1.push(s);
                    partitions.insert(k, entry);
                    proof {
                        pre_partitions.remove_ensures(k as int);
                        pre_partitions.remove(k as int).insert_ensures(k as int, entry);
                        assert(partitions@.len() == pre_partitions.len());
                        assert forall|b: int|
                            0 <= b < partitions@.len() && b != k implies partitions@[b]
                            == pre_partitions[b] by {}
                        assert(partitions@[k as int].0 == pre_partitions[k as int].0);
                        assert(partitions@[k as int].1@ == pre_partitions[k as int].1@.push(s));
                        assert forall|b: int|
                            0 <= b < partitions@.len() implies (#[trigger] partitions@[b]).1@
                            == with_dest(
                            t,
                            group@.take(gi + 1),
                            c as int,
                            partitions@[b].0,
                        ) by {
                            lemma_with_dest_push(t, group@, gi as int, c as int, partitions@[b].0);
                        }
                    }
                },
                None => {
                    let mut bucket: Vec<u32> = Vec::new();
                    bucket.push(s);
                    partitions.push((dest, bucket));
                    proof {
                        assert forall|i: int|
                            0 <= i < group@.take(gi as int).len() implies t.rows[
                        (#[trigger] group@.take(gi as int)[i]) as int].transitions[c as int]
                            != dest by {
                            assert(group@.take(gi as int)[i] == group@[i]);
                            let gb = choose|b: int|
                                0 <= b < pre_partitions.len() && (#[trigger] pre_partitions[b]).0
                                    == t.rows[group@[i] as int].transitions[c as int];
                        }
                        lemma_with_dest_absent(t, group@.take(gi as int), c as int, dest);
                        assert forall|b: int|
                            0 <= b < partitions@.len() implies (#[trigger] partitions@[b]).1@
                            == with_dest(
                            t,
                            group@.take(gi + 1),
                            c as int,
                            partitions@[b].0,
                        ) by {
                            lemma_with_dest_push(t, group@, gi as int, c as int, partitions@[b].0);
                            if b < partitions@.len() - 1 {
                                assert(partitions@[b] == pre_partitions[b]);
                            } else {
                                assert(partitions@[b].1@ =~= Seq::<u32>::empty().push(s));
                                assert(with_dest(t, group@.take(gi as int), c as int, dest)
                                    =~= Seq::<u32>::empty());
                            }
                        }
                    }
                },
            }
            proof {
                assert forall|gj: int| 0 <= gj < gi + 1 implies exists|b: int|
                    0 <= b < partitions@.len() && (#[trigger] partitions@[b]).0 == t.rows[(
                    #[trigger] group@[gj]) as int].transitions[c as int] by {
                    if gj == gi {
                        let w: int = if idx_opt is Some {
                            idx_opt->0 as int
                        } else {
                            partitions@.len() - 1
                        };
                        assert(partitions@[w].0 == t.rows[group@[gj] as int].transitions[c as int]);
                    } else {
                        let b = choose|b: int|
                            0 <= b < pre_partitions.len() && (#[trigger] pre_partitions[b]).0
                                == t.rows[group@[gj] as int].transitions[c as int];
                        assert(partitions@[b].0 == t.rows[group@[gj] as int].transitions[c as int]);
                    }
                }
            }
            gi = gi + 1;
        }

        // the buckets now hold distinct live states that agree on every
        // column from c on; sort out which still need refining
        proof {
            assert(group@.take(gi as int) =~= group@);
            assert forall|b: int| 0 <= b < partitions@.len() implies part_ok(
                t,
                (#[trigger] partitions@[b]).1@,
                chars_len as int,
            ) by {
                let bk = partitions@[b].1@;
                lemma_with_dest_props(t, group@, c as int, partitions@[b].0);
                assert forall|i: int| 0 <= i < bk.len() implies (#[trigger] bk[i])
                    < t.rows.len() by {
                    assert(bk.contains(bk[i]));
                    assert(group@.contains(bk[i]));
                    let gx = choose|gx: int| 0 <= gx < group@.len() && group@[gx] == bk[i];
                }
                assert forall|a: int, b2: int|
                    0 <= a < bk.len() && 0 <= b2 < bk.len() implies #[trigger] states_agree_from(
                    t,
                    bk[a],
                    bk[b2],
                    chars_len as int,
                ) by {
                    assert(bk.contains(bk[a]) && bk.contains(bk[b2]));
                    assert(group@.contains(bk[a]) && group@.contains(bk[b2]));
                    let xa = choose|xa: int| 0 <= xa < group@.len() && group@[xa] == bk[a];
                    let xb = choose|xb: int| 0 <= xb < group@.len() && group@[xb] == bk[b2];
                    assert(states_agree_from(t, group@[xa], group@[xb], chars_len as int + 1));
                    assert(t.rows[bk[a] as int].transitions[c as int] == partitions@[b].0);
                    assert(t.rows[bk[b2] as int].transitions[c as int] == partitions@[b].0);
                    assert forall|cc: int|
                        chars_len <= cc < t.alphabet.len() implies #[trigger] t.rows[
                    bk[a] as int].transitions[cc] == t.rows[bk[b2] as int].transitions[cc] by {
                        if cc > chars_len {
                            assert(t.rows[group@[xa] as int].transitions[cc] == t.rows[group@[xb] as int].transitions[cc]);
                        }
                    }
                }
            }
            assert forall|pi: int, qi: int|
                0 <= pi < qi < group@.len() && #[trigger] states_agree_from(
                    t,
                    group@[pi],
                    group@[qi],
                    0,
                ) implies exists|b: int|
                0 <= b < partitions@.len() && (#[trigger] partitions@[b]).1@.contains(group@[pi])
                    && partitions@[b].1@.contains(group@[qi]) by {
                let d = t.rows[group@[pi] as int].transitions[c as int];
                assert(t.rows[group@[qi] as int].transitions[c as int] == d);
                let b = choose|b: int|
                    0 <= b < partitions@.len() && (#[trigger] partitions@[b]).0 == t.rows[group@[pi] as int].transitions[c as int];
                lemma_with_dest_props(t, group@, c as int, d);
                assert(partitions@[b].1@.contains(group@[pi]));
                assert(partitions@[b].1@.contains(group@[qi]));
            }
        }

        // a bucket that can no longer be told apart is a merge set; one
        // that still can is refined over the columns that are left
        #[verifier::loop_isolation(false)]
        while partitions.len() > 0
            invariant
                chars@.len() == chars_len,
                forall|b: int|
                    0 <= b < partitions@.len() ==> part_ok(
                        t,
                        (#[trigger] partitions@[b]).1@,
                        chars_len as int,
                    ),
                merge_sets@.len() >= ms0.len(),
                forall|g2: int| 0 <= g2 < ms0.len() ==> merge_sets@[g2] == #[trigger] ms0[g2],
                forall|g2: int|
                    ms0.len() <= g2 < merge_sets@.len() ==> good_merge_set(
                        t,
                        (#[trigger] merge_sets@[g2])@,
                    ),
                forall|pi: int, qi: int|
                    0 <= pi < qi < group@.len() && #[trigger] states_agree_from(
                        t,
                        group@[pi],
                        group@[qi],
                        0,
                    ) ==> (exists|g2: int|
                        ms0.len() <= g2 < merge_sets@.len() && (
                        #[trigger] merge_sets@[g2])@.contains(group@[pi])
                            && merge_sets@[g2]@.contains(group@[qi])) || (exists|b: int|
                        0 <= b < partitions@.len() && (#[trigger] partitions@[b]).1@.contains(
                            group@[pi],
                        ) && partitions@[b].1@.contains(group@[qi])),
            decreases partitions@.len(),
        {
            let ghost pre_partitions = partitions@;
            let ghost pre_sets = merge_sets@;
            let entry = partitions.pop().unwrap();
            let bucket = entry.1;
            proof {
                assert(entry == pre_partitions.last());
                assert(part_ok(t, bucket@, chars_len as int));
            }
            if bucket.len() > 1 && chars.len() == 0 {
                let ghost new_set = bucket@;
                proof {
                    assert(good_merge_set(t, bucket@));
                }
                merge_sets.push(bucket);
                proof {
                    assert forall|g2: int|
                        ms0.len() <= g2 < merge_sets@.len() implies good_merge_set(
                        t,
                        (#[trigger] merge_sets@[g2])@,
                    ) by {
                        if g2 < pre_sets.len() {
                            assert(merge_sets@[g2] == pre_sets[g2]);
                        } else {
                            assert(merge_sets@[g2]@ == new_set);
                        }
                    }
                    assert forall|pi: int, qi: int|
                        0 <= pi < qi < group@.len() && #[trigger] states_agree_from(
                            t,
                            group@[pi],
                            group@[qi],
                            0,
                        ) implies (exists|g2: int|
                        ms0.len() <= g2 < merge_sets@.len() && (
                        #[trigger] merge_sets@[g2])@.contains(group@[pi])
                            && merge_sets@[g2]@.contains(group@[qi])) || (exists|b: int|
                        0 <= b < partitions@.len() && (#[trigger] partitions@[b]).1@.contains(
                            group@[pi],
                        ) && partitions@[b].1@.contains(group@[qi])) by {
                        if exists|g2: int|
                            ms0.len() <= g2 < pre_sets.len() && (
                            #[trigger] pre_sets[g2])@.contains(group@[pi])
                                && pre_sets[g2]@.contains(group@[qi]) {
                            let g2 = choose|g2: int|
                                ms0.len() <= g2 < pre_sets.len() && (
                                #[trigger] pre_sets[g2])@.contains(group@[pi])
                                    && pre_sets[g2]@.contains(group@[qi]);
                            assert(merge_sets@[g2] == pre_sets[g2]);
                        } else {
                            let b = choose|b: int|
                                0 <= b < pre_partitions.len() && (
                                #[trigger] pre_partitions[b]).1@.contains(group@[pi])
                                    && pre_partitions[b].1@.contains(group@[qi]);
                            if b < pre_partitions.len() - 1 {
                                assert(partitions@[b] == pre_partitions[b]);
                            } else {
                                let g2 = merge_sets@.len() - 1;
                                assert(merge_sets@[g2]@ == new_set);
                                assert(merge_sets@[g2]@.contains(group@[pi]));
                            }
                        }
                    }
                }
            } else if bucket.len() > 1 {
                let ghost mid_sets = merge_sets@;
                self.refine_partition(bucket, copy_vec(&chars), merge_sets);
                proof {
                    assert forall|g2: int|
                        ms0.len() <= g2 < merge_sets@.len() implies good_merge_set(
                        t,
                        (#[trigger] merge_sets@[g2])@,
                    ) by {
                        if g2 < mid_sets.len() {
                            assert(merge_sets@[g2] == mid_sets[g2]);
                        }
                    }
                    assert forall|pi: int, qi: int|
                        0 <= pi < qi < group@.len() && #[trigger] states_agree_from(
                            t,
                            group@[pi],
                            group@[qi],
                            0,
                        ) implies (exists|g2: int|
                        ms0.len() <= g2 < merge_sets@.len() && (
                        #[trigger] merge_sets@[g2])@.contains(group@[pi])
                            && merge_sets@[g2]@.contains(group@[qi])) || (exists|b: int|
                        0 <= b < partitions@.len() && (#[trigger] partitions@[b]).1@.contains(
                            group@[pi],
                        ) && partitions@[b].1@.contains(group@[qi])) by {
                        if exists|g2: int|
                            ms0.len() <= g2 < pre_sets.len() && (
                            #[trigger] pre_sets[g2])@.contains(group@[pi])
                                && pre_sets[g2]@.contains(group@[qi]) {
                            let g2 = choose|g2: int|
                                ms0.len() <= g2 < pre_sets.len() && (
                                #[trigger] pre_sets[g2])@.contains(group@[pi])
                                    && pre_sets[g2]@.contains(group@[qi]);
                            assert(merge_sets@[g2] == pre_sets[g2]);
                        } else {
                            let b = choose|b: int|
                                0 <= b < pre_partitions.len() && (
                                #[trigger] pre_partitions[b]).1@.contains(group@[pi])
                                    && pre_partitions[b].1@.contains(group@[qi]);
                            if b < pre_partitions.len() - 1 {
                                assert(partitions@[b] == pre_partitions[b]);
                            } else {
                                // the pair sat in the popped bucket: the
                                // recursive call put it into one new set
                                let bk = pre_partitions.last().1@;
                                let p = group@[pi];
                                let q = group@[qi];
                                let bi = choose|bi: int| 0 <= bi < bk.len() && bk[bi] == p;
                                let bj = choose|bj: int| 0 <= bj < bk.len() && bk[bj] == q;
                                assert(p != q);
                                assert(bi != bj);
                                if bi < bj {
                                    assert(states_agree_from(t, bk[bi], bk[bj], 0));
                                } else {
                                    assert(states_agree_from(t, bk[bj], bk[bi], 0));
                                }
                                let g2 = choose|g2: int|
                                    mid_sets.len() <= g2 < merge_sets@.len() && (
                                    #[trigger] merge_sets@[g2])@.contains(p)
                                        && merge_sets@[g2]@.contains(q);
                                assert(ms0.len() <= g2);
                            }
                        }
                    }
                }
            } else {
                proof {
                    assert forall|pi: int, qi: int|
                        0 <= pi < qi < group@.len() && #[trigger] states_agree_from(
                            t,
                            group@[pi],
                            group@[qi],
                            0,
                        ) implies (exists|g2: int|
                        ms0.len() <= g2 < merge_sets@.len() && (
                        #[trigger] merge_sets@[g2])@.contains(group@[pi])
                            && merge_sets@[g2]@.contains(group@[qi])) || (exists|b: int|
                        0 <= b < partitions@.len() && (#[trigger] partitions@[b]).1@.contains(
                            group@[pi],
                        ) && partitions@[b].1@.contains(group@[qi])) by {
                        if !(exists|g2: int|
                            ms0.len() <= g2 < pre_sets.len() && (
                            #[trigger] pre_sets[g2])@.contains(group@[pi])
                                && pre_sets[g2]@.contains(group@[qi])) {
                            let b = choose|b: int|
                                0 <= b < pre_partitions.len() && (
                                #[trigger] pre_partitions[b]).1@.contains(group@[pi])
                                    && pre_partitions[b].1@.contains(group@[qi]);
                            if b < pre_partitions.len() - 1 {
                                assert(partitions@[b] == pre_partitions[b]);
                            } else {
                                // a one-element bucket cannot hold two
                                // distinct states
                                let bk = pre_partitions.last().1@;
                                let bi = choose|bi: int| 0 <= bi < bk.len() && bk[bi] == group@[pi];
                                let bj = choose|bj: int| 0 <= bj < bk.len() && bk[bj] == group@[qi];
                                assert(group@[pi] != group@[qi]);
                                assert(bi != bj);
                            }
                        }
                    }
                }
            }
        }
    }

    /// Partition refinement: split the states into accepting and
    /// non-accepting parts, refine each part over every alphabet column, and
    /// merge the states of each group that no column could tell apart. The
    /// accepted language is unchanged; the state count never grows, and it
    /// strictly shrinks whenever two distinct states of the old table share
    /// their acceptance flag and their whole transition row over a
    /// non-empty alphabet.
    pub fn minimize(&mut self)
        requires
            old(self).wf(),
        ensures
            final(self).wf(),
            same_but_states(*final(self), *old(self)),
            forall|s: Seq<u8>|
                #[trigger] final(self).table().accepts(s) == old(self).table().accepts(s),
            final(self).states@.len() <= old(self).states@.len(),
            (old(self).alphabet@.len() > 0 && (exists|p: int, q: int|
                0 <= p < q < old(self).states@.len() && (#[trigger] old(self).states@[p])@.accepting
                    == (#[trigger] old(self).states@[q])@.accepting && old(self).states@[p]@.transitions == old(self).states@[q]@.transitions) ==> final(self).states@.len() < old(self).states@.len()),
    {
        let ghost t0 = self.table();
        let ghost self0 = *self;
        let ghost n0 = self.states@.len();

        // initial partition: an accepting and a non-accepting state can
        // never be equivalent
        let mut accepting: Vec<u32> = Vec::new();
        let mut non_accepting: Vec<u32> = Vec::new();
        let mut i: usize = 0;
        #[verifier::loop_isolation(false)]
        while i < self.states.len()
            invariant
                *self == self0,
                i <= self.states@.len(),
                forall|j: int|
                    0 <= j < accepting@.len() ==> (#[trigger] accepting@[j]) < i && t0.rows[accepting@[j] as int].accepting,
                forall|j: int|
                    0 <= j < non_accepting@.len() ==> (#[trigger] non_accepting@[j]) < i
                        && !t0.rows[non_accepting@[j] as int].accepting,
                accepting@.no_duplicates(),
                non_accepting@.no_duplicates(),
                forall|p: int|
                    0 <= p < i && t0.rows[p].accepting ==> accepting@.contains(
                        #[trigger] (p as u32),
                    ),
                forall|p: int|
                    0 <= p < i && !t0.rows[p].accepting ==> non_accepting@.contains(
                        #[trigger] (p as u32),
                    ),
            decreases self.states@.len() - i,
        {
            let row = &self.states[i];
            proof {
                assert(row@ == t0.rows[i as int]);
                assert(row@.state_id == i);
            }
            let ghost pre_acc = accepting@;
            let ghost pre_non = non_accepting@;
            if row.accepting {
                accepting.push(row.state_id);
                proof {
                    assert forall|a: int, b: int|
                        0 <= a < accepting@.len() && 0 <= b < accepting@.len() && a
                            != b implies accepting@[a] != accepting@[b] by {
                        if a < accepting@.len() - 1 && b < accepting@.len() - 1 {
                            assert(pre_acc[a] != pre_acc[b]);
                        }
                    }
                    assert forall|p: int|
                        0 <= p < i + 1 && t0.rows[p].accepting implies accepting@.contains(
                        #[trigger] (p as u32),
                    ) by {
                        if p == i {
                            assert(accepting@[accepting@.len() - 1] == (p as u32));
                        } else {
                            assert(pre_acc.contains(p as u32));
                            let jx = choose|jx: int|
                                0 <= jx < pre_acc.len() && pre_acc[jx] == (p as u32);
                            assert(accepting@[jx] == (p as u32));
                        }
                    }
                }
            } else {
                non_accepting.push(row.state_id);
                proof {
                    assert forall|a: int, b: int|
                        0 <= a < non_accepting@.len() && 0 <= b < non_accepting@.len() && a
                            != b implies non_accepting@[a] != non_accepting@[b] by {
                        if a < non_accepting@.len() - 1 && b < non_accepting@.len() - 1 {
                            assert(pre_non[a] != pre_non[b]);
                        }
                    }
                    assert forall|p: int|
                        0 <= p < i + 1 && !t0.rows[p].accepting implies non_accepting@.contains(
                        #[trigger] (p as u32),
                    ) by {
                        if p == i {
                            assert(non_accepting@[non_accepting@.len() - 1] == (p as u32));
                        } else {
                            assert(pre_non.contains(p as u32));
                            let jx = choose|jx: int|
                                0 <= jx < pre_non.len() && pre_non[jx] == (p as u32);
                            assert(non_accepting@[jx] == (p as u32));
                        }
                    }
                }
            }
            i = i + 1;
        }

        // the columns of the transition table
        let mut alphabet_cols: Vec<usize> = Vec::new();
        let mut col: usize = 0;
        #[verifier::loop_isolation(false)]
        while col < self.len_alphabet
            invariant
                *self == self0,
                col <= self.len_alphabet,
                alphabet_cols@.len() == col,
                forall|j: int| 0 <= j < col ==> (#[trigger] alphabet_cols@[j]) == j,
            decreases self.len_alphabet - col,
        {
            alphabet_cols.push(col);
            col = col + 1;
        }

        // refine both parts down to groups that agree on every column
        let mut merge_sets: Vec<Vec<u32>> = Vec::new();
        proof {
            assert(t0.alphabet.len() == self.len_alphabet);
            assert forall|a: int, b: int|
                0 <= a < accepting@.len() && 0 <= b < accepting@.len() implies
                #[trigger] states_agree_from(
                t0,
                accepting@[a],
                accepting@[b],
                alphabet_cols@.len() as int,
            ) by {}
            assert forall|a: int, b: int|
                0 <= a < non_accepting@.len() && 0 <= b < non_accepting@.len() implies
                #[trigger] states_agree_from(
                t0,
                non_accepting@[a],
                non_accepting@[b],
                alphabet_cols@.len() as int,
            ) by {}
        }
        let ghost acc0 = accepting@;
        let ghost non0 = non_accepting@;
        let cols_copy = copy_vec(&alphabet_cols);
        self.refine_partition(accepting, cols_copy, &mut merge_sets);
        let ghost sets1 = merge_sets@;
        self.refine_partition(non_accepting, alphabet_cols, &mut merge_sets);

        // whenever the old table holds two distinct states with one
        // acceptance flag and one row, some merge set holds such a pair
        let ghost shrink_due = t0.alphabet.len() > 0 && (exists|p: int, q: int|
            0 <= p < q < n0 && (#[trigger] t0.rows[p]).accepting == (
            #[trigger] t0.rows[q]).accepting && t0.rows[p].transitions == t0.rows[q].transitions);
        proof {
            assert forall|g2: int|
                0 <= g2 < merge_sets@.len() implies good_merge_set(
                t0,
                (#[trigger] merge_sets@[g2])@,
            ) by {
                if g2 < sets1.len() {
                    assert(merge_sets@[g2] == sets1[g2]);
                }
            }
            if shrink_due {
                let (p, q) = choose|p: int, q: int|
                    0 <= p < q < n0 && (#[trigger] t0.rows[p]).accepting == (
                    #[trigger] t0.rows[q]).accepting && t0.rows[p].transitions == t0.rows[q].transitions;
                let part: Seq<u32> = if t0.rows[p].accepting {
                    acc0
                } else {
                    non0
                };
                assert(part.contains(p as u32));
                assert(part.contains(q as u32));
                let pix = choose|pix: int| 0 <= pix < part.len() && part[pix] == (p as u32);
                let qix = choose|qix: int| 0 <= qix < part.len() && part[qix] == (q as u32);
                assert(pix != qix);
                assert(states_agree_from(t0, p as u32, q as u32, 0)) by {
                    assert forall|cc: int|
                        0 <= cc < t0.alphabet.len() implies #[trigger] t0.rows[p].transitions[cc]
                        == t0.rows[q].transitions[cc] by {}
                }
                if pix < qix {
                    assert(states_agree_from(t0, part[pix], part[qix], 0));
                } else {
                    assert(states_agree_from(t0, part[qix], part[pix], 0));
                }
                assert(exists|g2: int|
                    0 <= g2 < merge_sets@.len() && good_merge_set(
                        t0,
                        (#[trigger] merge_sets@[g2])@,
                    )) by {
                    if t0.rows[p].accepting {
                        let g2 = choose|g2: int|
                            0 <= g2 < sets1.len() && (#[trigger] sets1[g2])@.contains(
                                part[if pix < qix {
                                    pix
                                } else {
                                    qix
                                }],
                            ) && sets1[g2]@.contains(part[if pix < qix {
                                qix
                            } else {
                                pix
                            }]);
                        assert(merge_sets@[g2] == sets1[g2]);
                        assert(good_merge_set(t0, merge_sets@[g2]@));
                    } else {
                        let g2 = choose|g2: int|
                            sets1.len() <= g2 < merge_sets@.len() && (
                            #[trigger] merge_sets@[g2])@.contains(part[if pix < qix {
                                pix
                            } else {
                                qix
                            }]) && merge_sets@[g2]@.contains(part[if pix < qix {
                                qix
                            } else {
                                pix
                            }]);
                        assert(good_merge_set(t0, merge_sets@[g2]@));
                    }
                }
            }
        }

        // apply each merge set: its smallest id stays, the others are folded
        // into it in descending order, so that the removals do not disturb
        // the ids still to be processed
        let ghost n_sets = merge_sets@.len();
        let mut si: usize = 0;
        while si < merge_sets.len()
            invariant
                self.wf(),
                same_but_states(*self, self0),
                forall|w: Seq<u8>| #[trigger] self.table().accepts(w) == t0.accepts(w),
                si <= merge_sets@.len(),
                merge_sets@.len() == n_sets,
                self.states@.len() <= n0,
                shrink_due ==> (self.states@.len() < n0 || (self.table() == t0 && (exists|g2: int|
                    si <= g2 < merge_sets@.len() && good_merge_set(
                        t0,
                        (#[trigger] merge_sets@[g2])@,
                    )))),
            decreases merge_sets@.len() - si,
        {
            let mut working = copy_vec(&merge_sets[si]);
            if working.len() > 0 {
                let mut first = working[0];
                let mut j: usize = 1;
                #[verifier::loop_isolation(false)]
                while j < working.len()
                    invariant
                        1 <= j <= working@.len(),
                        working@.contains(first),
                        forall|jj: int| 0 <= jj < j ==> first <= #[trigger] working@[jj],
                    decreases working@.len() - j,
                {
                    if working[j] < first {
                        first = working[j];
                    }
                    proof {
                        assert(working@.contains(first));
                    }
                    j = j + 1;
                }
                while working.len() > 1
                    invariant
                        self.wf(),
                        same_but_states(*self, self0),
                        forall|w: Seq<u8>| #[trigger] self.table().accepts(w) == t0.accepts(w),
                        si < merge_sets@.len(),
                        si < usize::MAX,
                        merge_sets@.len() == n_sets,
                        self.states@.len() <= n0,
                        shrink_due ==> (self.states@.len() < n0 || (self.table() == t0 && (exists|
                            g2: int,
                        |
                            si < g2 < merge_sets@.len() && good_merge_set(
                                t0,
                                (#[trigger] merge_sets@[g2])@,
                            ))) || (self.table() == t0 && working@.len() >= 2
                            && working@.no_duplicates() && (forall|k: int|
                            0 <= k < working@.len() ==> (#[trigger] working@[k]) < t0.rows.len())
                            && group_agrees_from(t0, working@, 0) && working@.contains(first) && (
                        forall|k: int|
                            0 <= k < working@.len() ==> first <= #[trigger] working@[k]))),
                    decreases working@.len(),
                {
                    // take the largest remaining id
                    let mut max_idx: usize = 0;
                    let mut j2: usize = 1;
                    #[verifier::loop_isolation(false)]
                    while j2 < working.len()
                        invariant
                            max_idx < working@.len(),
                            j2 <= working@.len(),
                            forall|jj: int|
                                0 <= jj < j2 ==> #[trigger] working@[jj] <= working@[max_idx as int],
                        decreases working@.len() - j2,
                    {
                        if working[j2] > working[max_idx] {
                            max_idx = j2;
                        }
                        j2 = j2 + 1;
                    }
                    let ghost pre_working = working@;
                    let ghost pre_self = *self;
                    let s_id = working.remove(max_idx);
                    proof {
                        pre_working.remove_ensures(max_idx as int);
                        if shrink_due && pre_self.states@.len() == n0 && !(exists|g2: int|
                            si < g2 < merge_sets@.len() && good_merge_set(
                                t0,
                                (#[trigger] merge_sets@[g2])@,
                            )) {
                            // the good pair sits in this very set: the
                            // extracted id is larger than the kept one, and
                            // their rows agree, so the merge below happens
                            let fx = choose|fx: int|
                                0 <= fx < pre_working.len() && pre_working[fx] == first;
                            let other: int = if fx == 0 {
                                1
                            } else {
                                0
                            };
                            assert(pre_working[other] != pre_working[fx]);
                            assert(first < pre_working[other]);
                            assert(pre_working[max_idx as int] >= pre_working[other]);
                            assert(first < s_id);
                        }
                    }
                    if first < s_id && (s_id as usize) < self.states.len() && self.rows_agree(
                        first,
                        s_id,
                    ) {
                        let ghost t1 = self.table();
                        proof {
                            lemma_wf_len_bound(t1);
                        }
                        self.merge_states(first, s_id);
                        proof {
                            assert(merge_ok(t1, self.table(), first as int, s_id as int));
                            lemma_merge_preserves_wf(t1, self.table(), first as int, s_id as int);
                            assert forall|w: Seq<u8>| #[trigger] self.table().accepts(w)
                                == t0.accepts(w) by {
                                lemma_merge_preserves_language(
                                    t1,
                                    self.table(),
                                    first as int,
                                    s_id as int,
                                    w,
                                );
                            }
                            assert(self.states@.len() < pre_self.states@.len());
                        }
                        // ids past the removed one shift down in the sets
                        // still to come
                        let ghost selfm = *self;
                        let mut j3: usize = si + 1;
                        while j3 < merge_sets.len()
                            invariant
                                *self == selfm,
                                j3 <= merge_sets@.len(),
                                merge_sets@.len() == n_sets,
                            decreases merge_sets@.len() - j3,
                        {
                            let n = merge_sets[j3].len();
                            let mut shifted: Vec<u32> = Vec::new();
                            let mut j4: usize = 0;
                            while j4 < n
                                invariant
                                    j3 < merge_sets@.len(),
                                    n == merge_sets@[j3 as int]@.len(),
                                    j4 <= n,
                                decreases n - j4,
                            {
                                let id = merge_sets[j3][j4];
                                if id > s_id {
                                    shifted.push(id - 1);
                                } else {
                                    shifted.push(id);
                                }
                                j4 = j4 + 1;
                            }
                            merge_sets.set(j3, shifted);
                            j3 = j3 + 1;
                        }
                    } else {
                        proof {
                            if shrink_due && pre_self.states@.len() == n0 && !(exists|g2: int|
                                si < g2 < merge_sets@.len() && good_merge_set(
                                    t0,
                                    (#[trigger] merge_sets@[g2])@,
                                )) {
                                // with the good pair here, the guard cannot
                                // have failed: the two rows provably agree
                                let fx = choose|fx: int|
                                    0 <= fx < pre_working.len() && pre_working[fx] == first;
                                assert(states_agree_from(
                                    t0,
                                    pre_working[fx],
                                    pre_working[max_idx as int],
                                    0,
                                ));
                                assert(self.states@[first as int]@ == t0.rows[first as int]);
                                assert(self.states@[s_id as int]@ == t0.rows[s_id as int]);
                                assert(self.states@[first as int]@.transitions
                                    =~= self.states@[s_id as int]@.transitions);
                                assert(false);
                            }
                        }
                    }
                }
            }
            proof {
                if shrink_due && self.states@.len() == n0 {
                    assert(working@.len() <= 1);
                }
            }
            si = si + 1;
        }
        proof {
            assert(t0.rows.len() == n0);
            if old(self).alphabet@.len() > 0 && (exists|p: int, q: int|
                0 <= p < q < old(self).states@.len() && (
                #[trigger] old(self).states@[p])@.accepting == (
                #[trigger] old(self).states@[q])@.accepting && old(self).states@[p]@.transitions
                == old(self).states@[q]@.transitions) {
                let (p, q) = choose|p: int, q: int|
                    0 <= p < q < old(self).states@.len() && (
                    #[trigger] old(self).states@[p])@.accepting == (
                    #[trigger] old(self).states@[q])@.accepting && old(self).states@[p]@.transitions == old(self).states@[q]@.transitions;
                assert(t0.rows[p].accepting == t0.rows[q].accepting);
                assert(t0.rows[p].transitions == t0.rows[q].transitions);
                assert(shrink_due);
                assert(self.states@.len() < n0);
            }
        }
    }
}

/// A well-formed table's rows are numbered by `u32` ids, so it cannot hold
/// more rows than `u32` has values.
pub proof fn lemma_wf_len_bound(t: TableView)
    requires
        t.wf(),
    ensures
        t.rows.len() <= u32::MAX + 1,
{
    if t.rows.len() > u32::MAX + 1 {
        assert(t.rows[u32::MAX + 1].state_id == u32::MAX + 1);
    }
}

/// Two tables that accept the same strings record the same longest match on
/// every input.
pub proof fn lemma_same_language_same_best_match(
    t1: TableView,
    t2: TableView,
    s: Seq<u8>,
    upto: nat,
)
    requires
        forall|w: Seq<u8>| #[trigger] t1.accepts(w) == t2.accepts(w),
    ensures
        t1.best_match_len(s, upto) == t2.best_match_len(s, upto),
    decreases upto,
{
    if upto != 0 {
        assert(t1.accepts(s.take(upto as int)) == t2.accepts(s.take(upto as int)));
        lemma_same_language_same_best_match(t1, t2, s, (upto - 1) as nat);
    }
}

/// Language preservation composes: a pass that preserves the language of a
/// table that itself came from a language-preserving pass changes nothing
/// either, so minimizing a second time leaves the accepted language alone.
pub proof fn lemma_language_preservation_composes(ta: TableView, tb: TableView, tc: TableView)
    requires
        forall|w: Seq<u8>| #[trigger] ta.accepts(w) == tb.accepts(w),
        forall|w: Seq<u8>| #[trigger] tb.accepts(w) == tc.accepts(w),
    ensures
        forall|w: Seq<u8>| #[trigger] ta.accepts(w) == tc.accepts(w),
{
}

} // verus!
