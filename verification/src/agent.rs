use vstd::prelude::*;
use rand::rngs::SmallRng;
use crate::rng::fresh_small_rng;
use crate::rng::rng_below;
use crate::fixed::SCALE;
use crate::fixed::Q_MAX;
use crate::fixed::bellman;
use crate::fixed::scale_mul;
use crate::fixed::spec_scale_mul;
use crate::fixed::spec_div_scale;
use crate::fixed::spec_clamp_q;
use crate::fixed::lemma_scale_mul_magnitude;
use crate::qstate::QState;
use crate::qstate::make_q_state;
use crate::qstate::q_state_view;
use crate::qstate::state_key_of;
use crate::board::Background;
use crate::board::Board;
use crate::board::cell;
use crate::board::cell_in_bounds;
use crate::board::cell_open;
use crate::board::ghosts_open;
use crate::board::grid_walled;

verus! {

/// The five moves the agent chooses among each tick.
#[derive(Clone, Copy, PartialEq, Eq, Structural, Debug)]
pub enum Action {
    Idle,
    Up,
    Down,
    Left,
    Right,
}

/// The action behind each of the five draw indices.
pub open spec fn index_action(k: int) -> Action {
    if k == 0 {
        Action::Idle
    } else if k == 1 {
        Action::Up
    } else if k == 2 {
        Action::Down
    } else if k == 3 {
        Action::Left
    } else {
        Action::Right
    }
}

impl Action {
    /// The action behind one draw index.
    pub fn from_index(k: usize) -> (a: Action)
        requires
            k < 5,
        ensures
            a == index_action(k as int),
    {
        if k == 0 {
            Action::Idle
        } else if k == 1 {
            Action::Up
        } else if k == 2 {
            Action::Down
        } else if k == 3 {
            Action::Left
        } else {
            Action::Right
        }
    }

    /// A uniformly random action: a uniform draw below five, mapped through
    /// from_index. Which action comes back depends on the generator alone,
    /// so nothing more is promised of it.
    pub fn random(rng: &mut SmallRng) -> Action {
        let k = rng_below(rng, 5);
        Action::from_index(k)
    }
}

/// One Q-table row: the learned value of each action in one state, in
/// fixed-point units of 1/SCALE.
#[derive(Clone, Copy, PartialEq, Eq, Structural, Debug)]
pub struct QRow {
    pub idle: i64,
    pub up: i64,
    pub down: i64,
    pub left: i64,
    pub right: i64,
}

/// The stored value of one action in a row.
pub open spec fn row_val(r: QRow, a: Action) -> int {
    match a {
        Action::Idle => r.idle as int,
        Action::Up => r.up as int,
        Action::Down => r.down as int,
        Action::Left => r.left as int,
        Action::Right => r.right as int,
    }
}

/// Every value of the row lies in the stored range.
pub open spec fn row_bounded(r: QRow) -> bool {
    &&& -Q_MAX <= r.idle <= Q_MAX
    &&& -Q_MAX <= r.up <= Q_MAX
    &&& -Q_MAX <= r.down <= Q_MAX
    &&& -Q_MAX <= r.left <= Q_MAX
    &&& -Q_MAX <= r.right <= Q_MAX
}

/// The row a state carries before its first update: every action at 0.
pub open spec fn zero_row() -> QRow {
    QRow { idle: 0, up: 0, down: 0, left: 0, right: 0 }
}

/// Keep the better of the running best and a challenger; a tie keeps the
/// earlier action.
pub open spec fn better(cur: (Action, int), a: Action, v: int) -> (Action, int) {
    if v > cur.1 {
        (a, v)
    } else {
        cur
    }
}

/// The first action with the greatest stored value, tried in the order
/// Idle, Up, Down, Left, Right, together with that value.
pub open spec fn row_best(r: QRow) -> (Action, int) {
    better(
        better(
            better(
                better((Action::Idle, r.idle as int), Action::Up, r.up as int),
                Action::Down,
                r.down as int,
            ),
            Action::Left,
            r.left as int,
        ),
        Action::Right,
        r.right as int,
    )
}

/// Each field of a row is the value of its action.
pub proof fn lemma_row_vals(r: QRow)
    ensures
        row_val(r, Action::Idle) == r.idle as int,
        row_val(r, Action::Up) == r.up as int,
        row_val(r, Action::Down) == r.down as int,
        row_val(r, Action::Left) == r.left as int,
        row_val(r, Action::Right) == r.right as int,
{
}

/// The best value is the value of the best action, and no action beats it.
pub proof fn lemma_row_best(r: QRow)
    ensures
        row_best(r).1 == row_val(r, row_best(r).0),
        forall|a: Action| row_val(r, a) <= row_best(r).1,
{
}

impl QRow {
    /// An all-zero row.
    pub fn zeroes() -> (r: QRow)
        ensures
            r == zero_row(),
    {
        QRow { idle: 0, up: 0, down: 0, left: 0, right: 0 }
    }

    /// The stored value of one action.
    pub fn value_of(&self, a: Action) -> (v: i64)
        ensures
            v as int == row_val(*self, a),
    {
        match a {
            Action::Idle => self.idle,
            Action::Up => self.up,
            Action::Down => self.down,
            Action::Left => self.left,
            Action::Right => self.right,
        }
    }

    /// The row with one action's value replaced.
    pub fn with_value(self, a: Action, v: i64) -> (r: QRow)
        ensures
            row_val(r, a) == v,
            forall|b: Action| b != a ==> row_val(r, b) == row_val(self, b),
    {
        let mut r = self;
        match a {
            Action::Idle => {
                r.idle = v;
            },
            Action::Up => {
                r.up = v;
            },
            Action::Down => {
                r.down = v;
            },
            Action::Left => {
                r.left = v;
            },
            Action::Right => {
                r.right = v;
            },
        }
        r
    }

    /// The first action with the greatest stored value, and that value.
    pub fn best(&self) -> (r: (Action, i64))
        ensures
            r.0 == row_best(*self).0,
            r.1 as int == row_best(*self).1,
    {
        let mut act = Action::Idle;
        let mut val = self.idle;
        if self.up > val {
            act = Action::Up;
            val = self.up;
        }
        if self.down > val {
            act = Action::Down;
            val = self.down;
        }
        if self.left > val {
            act = Action::Left;
            val = self.left;
        }
        if self.right > val {
            act = Action::Right;
            val = self.right;
        }
        (act, val)
    }
}

/// Table entries hold strictly increasing keys.
pub open spec fn entries_sorted(s: Seq<(u64, QRow)>) -> bool {
    forall|i: int, j: int| 0 <= i < j < s.len() ==> (#[trigger] s[i]).0 < (#[trigger] s[j]).0
}

/// Every stored row keeps its values in the stored range.
pub open spec fn entries_bounded(s: Seq<(u64, QRow)>) -> bool {
    forall|i: int| 0 <= i < s.len() ==> row_bounded((#[trigger] s[i]).1)
}

/// The table holds an entry for this key.
pub open spec fn table_contains(s: Seq<(u64, QRow)>, k: u64) -> bool {
    exists|i: int| 0 <= i < s.len() && (#[trigger] s[i]).0 == k
}

/// The position of this key's entry (meaningful when the key is present;
/// with sorted entries it is unique).
pub open spec fn table_index(s: Seq<(u64, QRow)>, k: u64) -> int {
    choose|i: int| 0 <= i < s.len() && (#[trigger] s[i]).0 == k
}

/// The row stored for a key; a key never seen has the all-zero row.
pub open spec fn table_row(s: Seq<(u64, QRow)>, k: u64) -> QRow {
    if table_contains(s, k) {
        s[table_index(s, k)].1
    } else {
        zero_row()
    }
}

/// The stored value of one action in one state; 0 before the first update.
pub open spec fn table_quality(s: Seq<(u64, QRow)>, k: u64, a: Action) -> int {
    row_val(table_row(s, k), a)
}

/// The best stored value of a state; 0 for a state never seen.
pub open spec fn table_best_value(s: Seq<(u64, QRow)>, k: u64) -> int {
    row_best(table_row(s, k)).1
}

/// Sorted entries give each key at most one position.
pub proof fn lemma_sorted_key_unique(s: Seq<(u64, QRow)>, i: int, j: int)
    requires
        entries_sorted(s),
        0 <= i < s.len(),
        0 <= j < s.len(),
        s[i].0 == s[j].0,
    ensures
        i == j,
{
    if i < j {
        assert(s[i].0 < s[j].0);
    }
    if j < i {
        assert(s[j].0 < s[i].0);
    }
}

/// In a sorted table, the row of the key at position i is the entry there.
pub proof fn lemma_row_at_index(s: Seq<(u64, QRow)>, i: int)
    requires
        entries_sorted(s),
        0 <= i < s.len(),
    ensures
        table_contains(s, s[i].0),
        table_row(s, s[i].0) == s[i].1,
{
    assert(table_contains(s, s[i].0));
    let j = table_index(s, s[i].0);
    lemma_sorted_key_unique(s, i, j);
}

/// The mapping from encoded local state to a row of action values, stored
/// as a vector of entries with strictly increasing keys.
#[derive(PartialEq, Eq, Debug)]
pub struct QTable {
    pub entries: Vec<(u64, QRow)>,
}

impl QTable {
    /// Well-formedness: sorted keys, bounded values.
    pub open spec fn wf(self) -> bool {
        entries_sorted(self.entries@) && entries_bounded(self.entries@)
    }

    pub open spec fn contains_key(self, k: u64) -> bool {
        table_contains(self.entries@, k)
    }

    pub open spec fn quality(self, k: u64, a: Action) -> int {
        table_quality(self.entries@, k, a)
    }

    /// An empty table.
    pub fn new() -> (t: QTable)
        ensures
            t.wf(),
            t.entries@.len() == 0,
    {
        QTable { entries: Vec::new() }
    }

    /// The first position whose key is not below the given key.
    fn lower_bound(&self, key: u64) -> (p: usize)
        requires
            entries_sorted(self.entries@),
        ensures
            p <= self.entries@.len(),
            forall|i: int| 0 <= i < p ==> (#[trigger] self.entries@[i]).0 < key,
            forall|i: int|
                p <= i < self.entries@.len() ==> (#[trigger] self.entries@[i]).0 >= key,
    {
        let mut lo: usize = 0;
        let mut hi: usize = self.entries.len();
        while lo < hi
            invariant
                entries_sorted(self.entries@),
                lo <= hi <= self.entries@.len(),
                forall|i: int| 0 <= i < lo ==> (#[trigger] self.entries@[i]).0 < key,
                forall|i: int|
                    hi <= i < self.entries@.len() ==> (#[trigger] self.entries@[i]).0 >= key,
            decreases hi - lo,
        {
            let mid = lo + (hi - lo) / 2;
            if self.entries[mid].0 < key {
                proof {
                    assert forall|i: int| 0 <= i < mid + 1 implies (#[trigger] self.entries@[i]).0
                        < key by {
                        if i < mid {
                            assert(self.entries@[i].0 < self.entries@[mid as int].0);
                        }
                    }
                }
                lo = mid + 1;
            } else {
                proof {
                    assert forall|i: int|
                        mid <= i < self.entries@.len() implies (#[trigger] self.entries@[i]).0
                        >= key by {
                        if mid < i {
                            assert(self.entries@[mid as int].0 < self.entries@[i].0);
                        }
                    }
                }
                hi = mid;
            }
        }
        lo
    }

    /// The stored row of a state, or None before its first update.
    pub fn get(&self, key: u64) -> (r: Option<QRow>)
        requires
            entries_sorted(self.entries@),
        ensures
            table_contains(self.entries@, key) ==> r == Some(table_row(self.entries@, key)),
            !table_contains(self.entries@, key) ==> r is None,
    {
        let p = self.lower_bound(key);
        if p < self.entries.len() {
            let e = self.entries[p];
            if e.0 == key {
                proof {
                    lemma_row_at_index(self.entries@, p as int);
                }
                return Some(e.1);
            }
        }
        proof {
            assert forall|i: int| 0 <= i < self.entries@.len() implies (
            #[trigger] self.entries@[i]).0 != key by {
                if i >= p {
                    if (p as int) < self.entries@.len() && p < i {
                        assert(self.entries@[p as int].0 < self.entries@[i].0);
                    }
                }
            }
        }
        None
    }

    /// Store one action value for one state, creating the state's row with
    /// default values on first sight.
    pub fn set(&mut self, key: u64, a: Action, v: i64)
        requires
            old(self).wf(),
            -Q_MAX <= v <= Q_MAX,
        ensures
            final(self).wf(),
            final(self).quality(key, a) == v,
            forall|k2: u64, b: Action|
                !(k2 == key && b == a) ==> #[trigger] final(self).quality(k2, b) == old(
                    self,
                ).quality(k2, b),
            forall|k2: u64| #[trigger]
                final(self).contains_key(k2) == (old(self).contains_key(k2) || k2 == key),
    {
        let ghost s0 = self.entries@;
        let p = self.lower_bound(key);
        let hit = p < self.entries.len() && self.entries[p].0 == key;
        if hit {
            let row = self.entries[p].1;
            let newrow = row.with_value(a, v);
            proof {
                assert(row_bounded(s0[p as int].1));
                lemma_row_vals(row);
                lemma_row_vals(newrow);
                assert(row_bounded(newrow));
            }
            self.entries[p] = (key, newrow);
            proof {
                let s1 = self.entries@;
                assert(s1 == s0.update(p as int, (key, newrow)));
                assert(entries_sorted(s1));
                assert(entries_bounded(s1));
                lemma_row_at_index(s1, p as int);
                lemma_row_at_index(s0, p as int);
                assert(table_quality(s1, key, a) == v);
                assert forall|k2: u64, b: Action|
                    !(k2 == key && b == a) implies #[trigger] table_quality(s1, k2, b)
                    == table_quality(s0, k2, b) by {
                    if k2 == key {
                        assert(row_val(newrow, b) == row_val(row, b));
                    } else {
                        if table_contains(s0, k2) {
                            let i = table_index(s0, k2);
                            assert(s0[i].0 == k2);
                            assert(i != p as int);
                            assert(s1[i] == s0[i]);
                            lemma_row_at_index(s1, i);
                            lemma_row_at_index(s0, i);
                        } else {
                            assert(!table_contains(s1, k2)) by {
                                if table_contains(s1, k2) {
                                    let i = table_index(s1, k2);
                                    assert(s1[i].0 == k2);
                                    assert(i != p as int);
                                    assert(s0[i].0 == k2);
                                }
                            }
                        }
                    }
                }
                assert forall|k2: u64| #[trigger]
                    table_contains(s1, k2) == (table_contains(s0, k2) || k2 == key) by {
                    if table_contains(s0, k2) {
                        let i = table_index(s0, k2);
                        if i == p as int {
                            assert(s1[i].0 == k2);
                        } else {
                            assert(s1[i].0 == k2);
                        }
                        assert(table_contains(s1, k2));
                    }
                    if k2 == key {
                        assert(s1[p as int].0 == k2);
                        assert(table_contains(s1, k2));
                    }
                    if table_contains(s1, k2) && k2 != key {
                        let i = table_index(s1, k2);
                        assert(s1[i].0 == k2);
                        assert(i != p as int);
                        assert(s0[i].0 == k2);
                        assert(table_contains(s0, k2));
                    }
                }
            }
        } else {
            let newrow = QRow::zeroes().with_value(a, v);
            proof {
                lemma_row_vals(zero_row());
                lemma_row_vals(newrow);
                assert(row_bounded(newrow));
                if (p as int) < s0.len() {
                    assert(s0[p as int].0 >= key);
                    assert(s0[p as int].0 != key);
                }
            }
            self.entries.insert(p, (key, newrow));
            proof {
                let s1 = self.entries@;
                assert(s1 == s0.insert(p as int, (key, newrow)));
                assert(s1.len() == s0.len() + 1);
                assert(forall|i: int| 0 <= i < p ==> #[trigger] s1[i] == s0[i]);
                assert(s1[p as int] == (key, newrow));
                assert(forall|i: int| p < i < s1.len() ==> #[trigger] s1[i] == s0[i - 1]);
                assert forall|i: int, j: int| 0 <= i < j < s1.len() implies (#[trigger] s1[i]).0 < (
                #[trigger] s1[j]).0 by {
                    if i < p && j < p {
                    } else if i == p as int {
                        assert(s1[j] == s0[j - 1]);
                        assert(s0[j - 1].0 >= key);
                        assert(s0[j - 1].0 != key);
                    } else if j == p as int {
                        assert(s1[i] == s0[i]);
                    } else if i < p && j > p {
                        assert(s1[i] == s0[i]);
                        assert(s1[j] == s0[j - 1]);
                        if i < j - 1 {
                        } else {
                            assert(i == j - 1);
                            assert(s0[i].0 < key);
                            assert(s0[i].0 < s0[i].0 + 1);
                        }
                    } else {
                        assert(s1[i] == s0[i - 1]);
                        assert(s1[j] == s0[j - 1]);
                    }
                }
                assert(entries_sorted(s1));
                assert forall|i: int| 0 <= i < s1.len() implies row_bounded(
                    (#[trigger] s1[i]).1,
                ) by {
                    if i < p {
                        assert(s1[i] == s0[i]);
                        assert(row_bounded(s0[i].1));
                    } else if i > p {
                        assert(s1[i] == s0[i - 1]);
                        assert(row_bounded(s0[i - 1].1));
                    }
                }
                assert(entries_bounded(s1));
                lemma_row_at_index(s1, p as int);
                assert(table_quality(s1, key, a) == v);
                assert forall|k2: u64, b: Action|
                    !(k2 == key && b == a) implies #[trigger] table_quality(s1, k2, b)
                    == table_quality(s0, k2, b) by {
                    if k2 == key {
                        assert(table_row(s1, key) == newrow);
                        assert(row_val(newrow, b) == row_val(zero_row(), b));
                        assert(!table_contains(s0, key)) by {
                            if table_contains(s0, key) {
                                let i = table_index(s0, key);
                                assert(s0[i].0 == key);
                                if i < p {
                                    assert(s0[i].0 < key);
                                } else {
                                    assert(s0[i].0 != key);
                                }
                            }
                        }
                    } else {
                        if table_contains(s0, k2) {
                            let i = table_index(s0, k2);
                            assert(s0[i].0 == k2);
                            let i1 = if i < p {
                                i
                            } else {
                                i + 1
                            };
                            assert(s1[i1].0 == k2 && s1[i1].1 == s0[i].1);
                            lemma_row_at_index(s1, i1);
                            lemma_row_at_index(s0, i);
                        } else {
                            assert(!table_contains(s1, k2)) by {
                                if table_contains(s1, k2) {
                                    let i = table_index(s1, k2);
                                    assert(s1[i].0 == k2);
                                    if i < p {
                                        assert(s0[i].0 == k2);
                                    } else if i > p {
                                        assert(s0[i - 1].0 == k2);
                                    }
                                }
                            }
                        }
                    }
                }
                assert forall|k2: u64| #[trigger]
                    table_contains(s1, k2) == (table_contains(s0, k2) || k2 == key) by {
                    if table_contains(s0, k2) {
                        let i = table_index(s0, k2);
                        let i1 = if i < p {
                            i
                        } else {
                            i + 1
                        };
                        assert(s1[i1].0 == k2);
                        assert(table_contains(s1, k2));
                    }
                    if k2 == key {
                        assert(s1[p as int].0 == k2);
                        assert(table_contains(s1, k2));
                    }
                    if table_contains(s1, k2) && k2 != key {
                        let i = table_index(s1, k2);
                        assert(s1[i].0 == k2);
                        if i < p {
                            assert(s0[i].0 == k2);
                        } else if i > p {
                            assert(s0[i - 1].0 == k2);
                        }
                        assert(table_contains(s0, k2));
                    }
                }
            }
        }
    }
}

/// Every stored quality of a well-formed table lies in the stored range.
pub proof fn lemma_quality_bounded(s: Seq<(u64, QRow)>, k: u64)
    requires
        entries_sorted(s),
        entries_bounded(s),
    ensures
        row_bounded(table_row(s, k)),
        forall|a: Action| -Q_MAX <= #[trigger] table_quality(s, k, a) <= Q_MAX,
        -Q_MAX <= table_best_value(s, k) <= Q_MAX,
{
    let r = table_row(s, k);
    if table_contains(s, k) {
        let i = table_index(s, k);
        assert(row_bounded(s[i].1));
    }
    lemma_row_vals(r);
    assert forall|a: Action| -Q_MAX <= #[trigger] table_quality(s, k, a) <= Q_MAX by {
        assert(row_val(r, a) == table_quality(s, k, a));
    }
    lemma_row_best(r);
    assert(table_quality(s, k, row_best(r).0) == row_best(r).1);
}

/// The learning agent: the Q-table, the learning rate, the exploration
/// rate (named the discount rate, as it also discounts the next state's
/// value in the update), and the generator behind its random choices.
/// Both rates are fixed-point fractions in [0, SCALE].
pub struct PaQman {
    pub q_table: QTable,
    pub learning_rate: i64,
    pub discount_rate: i64,
    pub rng: SmallRng,
}

/// The integer key of a local state's view.
pub open spec fn key_of(s: Seq<crate::qstate::Tile>) -> u64 {
    state_key_of(s) as u64
}

impl PaQman {
    /// Well-formedness: a well-formed table and rates within [0, SCALE].
    pub open spec fn wf(self) -> bool {
        &&& self.q_table.wf()
        &&& 0 <= self.learning_rate <= SCALE
        &&& 0 <= self.discount_rate <= SCALE
    }

    /// A fresh agent: empty table, learning rate 0.7, exploration rate
    /// 0.95, so every state starts with value 0 for every action.
    pub fn new() -> (ai: PaQman)
        ensures
            ai.wf(),
            ai.q_table.entries@.len() == 0,
            ai.learning_rate == 700_000,
            ai.discount_rate == 950_000,
            forall|k: u64, a: Action| #[trigger] ai.q_table.quality(k, a) == 0,
    {
        let ai = PaQman {
            q_table: QTable::new(),
            learning_rate: 700_000,
            discount_rate: 950_000,
            rng: fresh_small_rng(),
        };
        proof {
            assert forall|k: u64, a: Action| #[trigger] ai.q_table.quality(k, a) == 0 by {
                assert(!table_contains(ai.q_table.entries@, k));
                lemma_row_vals(zero_row());
            }
        }
        ai
    }

    /// Replace the exploration rate (used by the training schedule).
    pub fn set_discount_rate(&mut self, rate: i64)
        requires
            old(self).wf(),
            0 <= rate <= SCALE,
        ensures
            final(self).wf(),
            final(self).discount_rate == rate,
            final(self).learning_rate == old(self).learning_rate,
            final(self).q_table == old(self).q_table,
    {
        self.discount_rate = rate;
    }

    /// Replace the learning rate.
    pub fn set_learning_rate(&mut self, rate: i64)
        requires
            old(self).wf(),
            0 <= rate <= SCALE,
        ensures
            final(self).wf(),
            final(self).learning_rate == rate,
            final(self).discount_rate == old(self).discount_rate,
            final(self).q_table == old(self).q_table,
    {
        self.learning_rate = rate;
    }

    /// Replace the whole table (used to resume from a stored table).
    pub fn set_q_table(&mut self, table: QTable)
        requires
            old(self).wf(),
            table.wf(),
        ensures
            final(self).wf(),
            final(self).q_table == table,
            final(self).learning_rate == old(self).learning_rate,
            final(self).discount_rate == old(self).discount_rate,
    {
        self.q_table = table;
    }

    /// The stored value of one action in one state; 0 for a state the
    /// table has never seen.
    pub fn get_quality(&self, q_state: &QState, action: Action) -> (q: i64)
        requires
            self.q_table.wf(),
            q_state.wf(),
        ensures
            q as int == self.q_table.quality(key_of(q_state.view_seq()), action),
            !self.q_table.contains_key(key_of(q_state.view_seq())) ==> q == 0,
    {
        let key = q_state.state_key();
        match self.q_table.get(key) {
            Some(row) => row.value_of(action),
            None => {
                proof {
                    lemma_row_vals(zero_row());
                }
                0
            },
        }
    }

    /// Store one action value for one state.
    pub fn set_quality(&mut self, q_state: &QState, action: Action, quality: i64)
        requires
            old(self).wf(),
            q_state.wf(),
            -Q_MAX <= quality <= Q_MAX,
        ensures
            final(self).wf(),
            final(self).learning_rate == old(self).learning_rate,
            final(self).discount_rate == old(self).discount_rate,
            final(self).q_table.quality(key_of(q_state.view_seq()), action) == quality,
            forall|k2: u64, b: Action|
                !(k2 == key_of(q_state.view_seq()) && b == action)
                    ==> #[trigger] final(self).q_table.quality(k2, b)
                    == old(self).q_table.quality(k2, b),
            forall|k2: u64| #[trigger]
                final(self).q_table.contains_key(k2) == (old(self).q_table.contains_key(k2) || k2
                    == key_of(q_state.view_seq())),
    {
        let key = q_state.state_key();
        self.q_table.set(key, action, quality);
    }

    /// The first best action of a state and its stored value; for a state
    /// never seen, a uniformly random action with the default value 0.
    pub fn get_best_action(&mut self, q_state: &QState) -> (r: (Action, i64))
        requires
            old(self).wf(),
            q_state.wf(),
        ensures
            final(self).q_table == old(self).q_table,
            final(self).learning_rate == old(self).learning_rate,
            final(self).discount_rate == old(self).discount_rate,
            r.1 as int == table_best_value(
                old(self).q_table.entries@,
                key_of(q_state.view_seq()),
            ),
            old(self).q_table.contains_key(key_of(q_state.view_seq())) ==> r.0 == row_best(
                table_row(old(self).q_table.entries@, key_of(q_state.view_seq())),
            ).0,
    {
        let key = q_state.state_key();
        match self.q_table.get(key) {
            Some(row) => row.best(),
            None => {
                proof {
                    lemma_row_vals(zero_row());
                }
                (Action::random(&mut self.rng), 0)
            },
        }
    }

    /// The epsilon-greedy decision on an already-drawn value: explore with
    /// a random action when the draw falls below the exploration rate,
    /// otherwise exploit the state's first best stored action. On a state
    /// the table holds, every draw at or above the rate gives that state's
    /// first best action.
    pub fn decide_action(&mut self, q_state: &QState, draw: i64) -> (a: Action)
        requires
            old(self).wf(),
            q_state.wf(),
            0 <= draw < SCALE,
        ensures
            final(self).q_table == old(self).q_table,
            final(self).learning_rate == old(self).learning_rate,
            final(self).discount_rate == old(self).discount_rate,
            draw >= old(self).discount_rate && old(self).q_table.contains_key(
                key_of(q_state.view_seq()),
            ) ==> a == row_best(
                table_row(old(self).q_table.entries@, key_of(q_state.view_seq())),
            ).0,
    {
        if draw < self.discount_rate {
            Action::random(&mut self.rng)
        } else {
            let (best, _) = self.get_best_action(q_state);
            best
        }
    }

    /// Choose the next action: draw a value uniformly below SCALE and let
    /// decide_action take it from there. With exploration rate 0 and a
    /// state the table holds, the choice is deterministic: always that
    /// state's first best action.
    pub fn pick_action(&mut self, q_state: &QState) -> (a: Action)
        requires
            old(self).wf(),
            q_state.wf(),
        ensures
            final(self).q_table == old(self).q_table,
            final(self).learning_rate == old(self).learning_rate,
            final(self).discount_rate == old(self).discount_rate,
            old(self).discount_rate == 0 && old(self).q_table.contains_key(
                key_of(q_state.view_seq()),
            ) ==> a == row_best(
                table_row(old(self).q_table.entries@, key_of(q_state.view_seq())),
            ).0,
    {
        let draw = rng_below(&mut self.rng, SCALE as usize);
        self.decide_action(q_state, draw as i64)
    }

    /// The Bellman update: move the stored value of the taken action in
    /// the old state toward the received reward plus the discounted best
    /// value of the new state. With learning rate 0 and reward 0 no stored
    /// value changes.
    pub fn update_q_table(
        &mut self,
        reward: i64,
        state: &QState,
        new_state: &QState,
        action: Action,
    )
        requires
            old(self).wf(),
            state.wf(),
            new_state.wf(),
            -SCALE <= reward <= SCALE,
        ensures
            final(self).wf(),
            final(self).learning_rate == old(self).learning_rate,
            final(self).discount_rate == old(self).discount_rate,
            final(self).q_table.quality(key_of(state.view_seq()), action) == bellman(
                old(self).q_table.quality(key_of(state.view_seq()), action),
                table_best_value(old(self).q_table.entries@, key_of(new_state.view_seq())),
                reward as int,
                old(self).learning_rate as int,
                old(self).discount_rate as int,
            ),
            forall|k2: u64, b: Action|
                !(k2 == key_of(state.view_seq()) && b == action)
                    ==> #[trigger] final(self).q_table.quality(k2, b)
                    == old(self).q_table.quality(k2, b),
            forall|k2: u64| #[trigger]
                final(self).q_table.contains_key(k2) == (old(self).q_table.contains_key(k2) || k2
                    == key_of(state.view_seq())),
            old(self).learning_rate == 0 && reward == 0 ==> forall|k2: u64, b: Action| #[trigger]
                final(self).q_table.quality(k2, b) == old(self).q_table.quality(k2, b),
    {
        let ghost skey = key_of(state.view_seq());
        let ghost nkey = key_of(new_state.view_seq());
        proof {
            lemma_quality_bounded(self.q_table.entries@, skey);
            lemma_quality_bounded(self.q_table.entries@, nkey);
        }
        let best_next_q = self.get_best_action(new_state).1;
        let prev_quality = self.get_quality(state, action);
        proof {
            lemma_scale_mul_magnitude(self.discount_rate as int, best_next_q as int);
        }
        let discounted = scale_mul(self.discount_rate, best_next_q);
        let inner = reward + discounted - prev_quality;
        proof {
            lemma_scale_mul_magnitude(self.learning_rate as int, inner as int);
        }
        let delta = scale_mul(self.learning_rate, inner);
        let raw = prev_quality + delta;
        let new_quality = if raw > Q_MAX {
            Q_MAX
        } else if raw < -Q_MAX {
            -Q_MAX
        } else {
            raw
        };
        proof {
            assert(new_quality as int == spec_clamp_q(raw as int));
        }
        self.set_quality(state, action, new_quality);
        proof {
            if old(self).learning_rate == 0 && reward == 0 {
                let x = spec_scale_mul(old(self).discount_rate as int, best_next_q as int)
                    - prev_quality as int;
                assert(0int * x == 0) by (nonlinear_arith);
                assert(spec_scale_mul(0, x) == spec_div_scale(0));
                assert(spec_div_scale(0) == 0);
                assert(new_quality == prev_quality);
                assert forall|k2: u64, b: Action| #[trigger] self.q_table.quality(k2, b) == old(
                    self,
                ).q_table.quality(k2, b) by {
                    if !(k2 == key_of(state.view_seq()) && b == action) {
                        assert(self.q_table.quality(k2, b) == old(self).q_table.quality(k2, b));
                    }
                }
            }
        }
    }

    /// One turn of the player: encode the current state, choose an action,
    /// move, compute the reward (-1 on a terminal state, +1 for food eaten,
    /// 0 otherwise, in fixed point), and apply the Bellman update. Returns
    /// the chosen action and the reward.
    pub fn tick_pacman(&mut self, board: &mut Board) -> (step: (Action, i64))
        requires
            old(self).wf(),
            old(board).wf(),
        ensures
            final(self).wf(),
            final(board).wf(),
            final(self).learning_rate == old(self).learning_rate,
            final(self).discount_rate == old(self).discount_rate,
            moved_by(*old(board), *final(board), step.0),
            step.1 as int == step_reward(*final(board), eats(*old(board), step.0)),
            final(self).q_table.quality(old_state_key(*old(board)), step.0) == bellman(
                old(self).q_table.quality(old_state_key(*old(board)), step.0),
                table_best_value(old(self).q_table.entries@, old_state_key(*final(board))),
                step.1 as int,
                old(self).learning_rate as int,
                old(self).discount_rate as int,
            ),
            forall|k2: u64, b: Action|
                !(k2 == old_state_key(*old(board)) && b == step.0)
                    ==> #[trigger] final(self).q_table.quality(k2, b)
                    == old(self).q_table.quality(k2, b),
            forall|k2: u64| #[trigger]
                final(self).q_table.contains_key(k2) == (old(self).q_table.contains_key(k2) || k2
                    == old_state_key(*old(board))),
            old(self).discount_rate == 0 && old(self).q_table.contains_key(
                old_state_key(*old(board)),
            ) ==> step.0 == row_best(
                table_row(old(self).q_table.entries@, old_state_key(*old(board))),
            ).0,
    {
        let current_state = make_q_state(board);
        let action = self.pick_action(&current_state);
        let ate = apply_action(board, action);
        let over = board.is_game_over();
        let reward = compute_reward(over, ate);
        let new_state = make_q_state(board);
        self.update_q_table(reward, &current_state, &new_state, action);
        (action, reward)
    }
}

/// The reward of a finished move: -1 for a terminal state, +1 for food
/// eaten, 0 otherwise, in fixed-point units of 1/SCALE.
pub fn compute_reward(over: bool, ate: bool) -> (r: i64)
    ensures
        r as int == (if over {
            -(SCALE as int)
        } else if ate {
            SCALE as int
        } else {
            0
        }),
{
    if over {
        -SCALE
    } else if ate {
        SCALE
    } else {
        0
    }
}

/// The cell an action moves the player to, from position p.
pub open spec fn action_dest(p: (usize, usize), a: Action) -> (int, int) {
    match a {
        Action::Idle => (p.0 as int, p.1 as int),
        Action::Up => (p.0 as int, p.1 as int - 1),
        Action::Down => (p.0 as int, p.1 as int + 1),
        Action::Left => (p.0 as int - 1, p.1 as int),
        Action::Right => (p.0 as int + 1, p.1 as int),
    }
}

/// The action's destination on this board holds food.
pub open spec fn eats(b: Board, a: Action) -> bool {
    cell(b.tiles@, action_dest(b.pacman, a).0, action_dest(b.pacman, a).1) == Background::Food
}

/// How one player move relates the boards before and after it: a wall
/// destination leaves everything in place; any other destination receives
/// the player and loses its food, and no other cell changes. Ghosts never
/// move here.
pub open spec fn moved_by(b0: Board, b1: Board, a: Action) -> bool {
    let dx = action_dest(b0.pacman, a).0;
    let dy = action_dest(b0.pacman, a).1;
    &&& b1.ghosts@ == b0.ghosts@
    &&& b1.width() == b0.width()
    &&& b1.height() == b0.height()
    &&& if cell(b0.tiles@, dx, dy) == Background::Wall {
        b1.tiles@ == b0.tiles@ && b1.pacman == b0.pacman
    } else {
        &&& b1.pacman == (dx as usize, dy as usize)
        &&& cell(b1.tiles@, dx, dy) == (if cell(b0.tiles@, dx, dy) == Background::Food {
            Background::Empty
        } else {
            cell(b0.tiles@, dx, dy)
        })
        &&& forall|xx: int, yy: int|
            cell_in_bounds(b0.tiles@, xx, yy) && (xx != dx || yy != dy)
                ==> #[trigger] cell(b1.tiles@, xx, yy) == cell(b0.tiles@, xx, yy)
    }
}

/// The reward of a finished move: -1 when it ended the round, +1 when it
/// ate food, 0 otherwise, in fixed-point units of 1/SCALE.
pub open spec fn step_reward(b1: Board, ate: bool) -> int {
    if b1.game_over() {
        -(SCALE as int)
    } else if ate {
        SCALE as int
    } else {
        0
    }
}

/// The lookup key of the local state a board encodes to.
pub open spec fn old_state_key(b: Board) -> u64 {
    key_of(q_state_view(b.tiles@, b.ghosts@, b.pacman))
}

/// Move the player one step in the direction of the action, when the
/// destination is not a wall; food there is eaten. Returns whether food
/// was eaten. The player starts on an open cell of a walled board, so the
/// destination is always on the board.
pub fn apply_action(board: &mut Board, a: Action) -> (ate: bool)
    requires
        old(board).wf(),
    ensures
        final(board).wf(),
        moved_by(*old(board), *final(board), a),
        ate == eats(*old(board), a),
{
    let ghost t0 = board.tiles@;
    let ghost g0 = board.ghosts@;
    let (x, y) = board.pacman;
    proof {
        board.lemma_open_cell_interior(x as int, y as int);
    }
    let (nx, ny) = match a {
        Action::Idle => (x, y),
        Action::Up => (x, y - 1),
        Action::Down => (x, y + 1),
        Action::Left => (x - 1, y),
        Action::Right => (x + 1, y),
    };
    let ate = board.move_pacman(nx, ny);
    proof {
        let t1 = board.tiles@;
        if cell(t0, nx as int, ny as int) != Background::Wall {
            assert forall|xx: int, yy: int|
                cell_in_bounds(t1, xx, yy) && (xx == 0 || yy == 0 || xx == crate::board::grid_width(
                    t1,
                ) - 1 || yy == crate::board::grid_height(t1) - 1) implies #[trigger] cell(
                t1,
                xx,
                yy,
            ) == Background::Wall by {
                assert(cell(t0, xx, yy) == Background::Wall);
                assert(cell(t1, xx, yy) == cell(t0, xx, yy));
            }
            assert(grid_walled(t1));
            assert forall|i: int| 0 <= i < g0.len() implies cell_open(
                t1,
                (#[trigger] g0[i]).0 as int,
                g0[i].1 as int,
            ) by {
                let gx = g0[i].0 as int;
                let gy = g0[i].1 as int;
                assert(cell_open(t0, gx, gy));
                if gx == nx as int && gy == ny as int {
                } else {
                    assert(cell(t1, gx, gy) == cell(t0, gx, gy));
                }
            }
            assert(ghosts_open(t1, board.ghosts@));
        }
    }
    ate
}

} // verus!
