use vstd::prelude::*;
use std::collections::HashMap;
use crate::backend::board_representation::movement::{Move, Score};

verus! {

broadcast use vstd::std_specs::hash::group_hash_axioms;

pub type Key = i64;

/// How a stored value bounds the true value of a position.
#[derive(PartialEq, Eq, Debug, Clone, Copy, Structural)]
pub enum TransFlag {
    EXACT,
    UPPER_BOUND,
    LOWER_BOUND,
}

/// What is remembered of a position searched before.
#[derive(PartialEq, Debug, Clone, Copy)]
pub struct Transposition {
    pub value: Score,
    pub flag: TransFlag,
    pub depth: usize,
    pub best: Option<Move>,
    pub age: bool,
}

/// A memo of searched positions by hash. Between two searches `clean` drops the entries
/// that have not been read or written since the clean before.
pub struct MemoMap {
    map: HashMap<Key, Transposition>,
    delete: bool,
}

impl View for MemoMap {
    /// The entries, and the age that the next `clean` removes.
    type V = (Map<Key, Transposition>, bool);

    closed spec fn view(&self) -> (Map<Key, Transposition>, bool) {
        (self.map@, self.delete)
    }
}

/// Whether an entry survives a clean that removes age `delete`.
fn is_fresh(t: &Transposition, delete: bool) -> (r: bool)
    ensures r == (t.age != delete),
{
    t.age != delete
}

pub open spec fn fresh_part(m: Map<Key, Transposition>, delete: bool) -> Map<Key, Transposition> {
    m.restrict(m.dom().filter(|k: Key| m[k].age != delete))
}

/// `HashMap::retain` with the test `is_fresh(v, delete)`: by its documentation, it removes
/// exactly the entries for which the test is false and leaves the others as they were.
#[verifier::external_body]
fn retain_fresh(map: &mut HashMap<Key, Transposition>, delete: bool)
    ensures final(map)@ == fresh_part(old(map)@, delete),
{
    map.retain(|_, v| is_fresh(v, delete));
}

/// Reading the entry of `k`: the entry, marked as read, and the memo afterwards (what
/// `get` does).
pub open spec fn memo_read(t: (Map<Key, Transposition>, bool), k: Key)
    -> (Option<Transposition>, (Map<Key, Transposition>, bool))
{
    if t.0.contains_key(k) {
        let e = Transposition { age: !t.1, ..t.0[k] };
        (Some(e), (t.0.insert(k, e), t.1))
    } else {
        (None, t)
    }
}

/// Writing an entry for `k`, unless one searched at least as deep is there (what `insert`
/// does).
pub open spec fn memo_write(t: (Map<Key, Transposition>, bool), k: Key, value: int, flag: TransFlag,
    depth: nat, best: Option<Move>) -> (Map<Key, Transposition>, bool)
{
    if t.0.contains_key(k) && t.0[k].depth >= depth {
        t
    } else {
        (t.0.insert(k, Transposition { value: value as Score, flag, depth: depth as usize, best, age: !t.1 }), t.1)
    }
}

/// A call on the memo between two cleans: `get` of a key, or `insert` of an entry.
pub enum MemoOp {
    Read(Key),
    Write(Key, Score, TransFlag, usize, Option<Move>),
}

/// The memo after one call.
pub open spec fn memo_step(t: (Map<Key, Transposition>, bool), op: MemoOp) -> (Map<Key, Transposition>, bool) {
    match op {
        MemoOp::Read(k) => memo_read(t, k).1,
        MemoOp::Write(k, value, flag, depth, best) => memo_write(t, k, value as int, flag, depth as nat, best),
    }
}

/// The memo after the calls `ops`, in order.
pub open spec fn memo_run(t: (Map<Key, Transposition>, bool), ops: Seq<MemoOp>) -> (Map<Key, Transposition>, bool)
    decreases ops.len(),
{
    if ops.len() == 0 { t } else { memo_step(memo_run(t, ops.drop_last()), ops.last()) }
}

/// Whether the call `op` on the memo `t` reads or writes the entry of `k`: a `get` of a key
/// that is there, or an `insert` that is not refused for a deeper entry.
pub open spec fn touches(t: (Map<Key, Transposition>, bool), op: MemoOp, k: Key) -> bool {
    match op {
        MemoOp::Read(k2) => k2 == k && t.0.contains_key(k),
        MemoOp::Write(k2, value, flag, depth, best) => k2 == k && !(t.0.contains_key(k) && t.0[k].depth >= depth),
    }
}

/// Whether one of the calls `ops`, made from the memo `t`, reads or writes the entry of `k`.
pub open spec fn touched(t: (Map<Key, Transposition>, bool), ops: Seq<MemoOp>, k: Key) -> bool
    decreases ops.len(),
{
    ops.len() > 0 && (touched(t, ops.drop_last(), k) || touches(memo_run(t, ops.drop_last()), ops.last(), k))
}

/// Every entry has the age that the next clean removes, as after `new` and after a clean.
pub open spec fn all_stale(t: (Map<Key, Transposition>, bool)) -> bool {
    forall|k: Key| t.0.contains_key(k) ==> (#[trigger] t.0[k]).age == t.1
}

/// A clean leaves every entry stale.
pub proof fn lemma_clean_leaves_stale(t: (Map<Key, Transposition>, bool))
    ensures all_stale((fresh_part(t.0, t.1), !t.1)),
{
}

/// The life of an entry: from a memo whose entries are all stale (as `new` and `clean`
/// leave it), after any calls of `get` and `insert` the next clean keeps exactly the entries
/// that one of those calls read or wrote, each as the last call left it, and adds none.
pub proof fn lemma_memo_lifetime(t: (Map<Key, Transposition>, bool), ops: Seq<MemoOp>)
    requires all_stale(t),
    ensures
        memo_run(t, ops).1 == t.1,
        forall|k: Key| #[trigger] fresh_part(memo_run(t, ops).0, t.1).contains_key(k)
            <==> memo_run(t, ops).0.contains_key(k) && touched(t, ops, k),
        forall|k: Key| #[trigger] fresh_part(memo_run(t, ops).0, t.1).contains_key(k)
            ==> fresh_part(memo_run(t, ops).0, t.1)[k] == memo_run(t, ops).0[k],
{
    lemma_touched_is_fresh(t, ops);
}

proof fn lemma_touched_is_fresh(t: (Map<Key, Transposition>, bool), ops: Seq<MemoOp>)
    requires all_stale(t),
    ensures
        memo_run(t, ops).1 == t.1,
        forall|k: Key| #[trigger] memo_run(t, ops).0.contains_key(k)
            ==> (memo_run(t, ops).0[k].age != t.1 <==> touched(t, ops, k)),
    decreases ops.len(),
{
    if ops.len() > 0 {
        let pre = ops.drop_last();
        lemma_touched_is_fresh(t, pre);
        let u = memo_run(t, pre);
        let op = ops.last();
        assert forall|k: Key| #[trigger] memo_run(t, ops).0.contains_key(k)
            implies (memo_run(t, ops).0[k].age != t.1 <==> touched(t, ops, k)) by {
            assert(memo_run(t, ops) == memo_step(u, op));
            assert(touched(t, ops, k) == (touched(t, pre, k) || touches(u, op, k)));
            match op {
                MemoOp::Read(k2) => {
                    if k2 == k && u.0.contains_key(k) {
                    } else if u.0.contains_key(k2) {
                        assert(memo_run(t, ops).0[k] == u.0[k]);
                    }
                },
                MemoOp::Write(k2, value, flag, depth, best) => {
                    if k2 == k && !(u.0.contains_key(k) && u.0[k].depth >= depth) {
                    } else {
                        assert(u.0.contains_key(k));
                        assert(memo_run(t, ops).0[k] == u.0[k]);
                    }
                },
            }
        }
    }
}

impl MemoMap {

    /// The memo holds finitely many entries.
    pub proof fn lemma_finite(&self)
        ensures self@.0.dom().finite(),
    {
    }
    pub fn new() -> (r: Self)
        ensures r@ == (Map::<Key, Transposition>::empty(), true),
    {
        MemoMap { map: HashMap::with_capacity(2_000_000), delete: true }
    }

    /// The entry of `k`, marked as read (its age set to the one the next clean keeps).
    pub fn get(&mut self, k: &Key) -> (r: Option<&Transposition>)
        ensures
            final(self)@.1 == old(self)@.1,
            old(self)@.0.contains_key(*k) ==> {
                &&& final(self)@.0 == old(self)@.0.insert(*k, Transposition { age: !old(self)@.1, ..old(self)@.0[*k] })
                &&& r == Some(&final(self)@.0[*k])
            },
            !old(self)@.0.contains_key(*k) ==> r is None && final(self)@ == old(self)@,
            final(self)@ == memo_read(old(self)@, *k).1,
    {
        let found: Option<Transposition> = match self.map.get(k) {
            Some(t) => Some(*t),
            None => None,
        };
        match found {
            None => None,
            Some(t) => {
                let mut t2 = t;
                t2.age = !self.delete;
                self.map.insert(*k, t2);
                self.map.get(k)
            },
        }
    }

    /// Stores an entry for `k`, unless one searched at least as deep is already there.
    pub fn insert(&mut self, k: Key, value: Score, flag: TransFlag, depth: usize, best: Option<Move>)
        ensures
            final(self)@.1 == old(self)@.1,
            final(self)@.0 == if old(self)@.0.contains_key(k) && old(self)@.0[k].depth >= depth {
                old(self)@.0
            } else {
                old(self)@.0.insert(k, Transposition { value, flag, depth, best, age: !old(self)@.1 })
            },
            final(self)@ == memo_write(old(self)@, k, value as int, flag, depth as nat, best),
    {
        if let Some(t) = self.map.get(&k) {
            if t.depth >= depth {
                return;
            }
        }
        self.map.insert(k, Transposition { value, flag, depth, best, age: !self.delete });
    }

    /// Drops the entries not read or written since the last clean, and returns how many.
    pub fn clean(&mut self) -> (r: usize)
        ensures
            final(self)@.0 == fresh_part(old(self)@.0, old(self)@.1),
            final(self)@.1 == !old(self)@.1,
            r == old(self)@.0.len() - final(self)@.0.len(),
    {
        let before = self.map.len();
        let delete = self.delete;
        let ghost old_map = self.map@;
        retain_fresh(&mut self.map, delete);
        proof {
            assert(self.map@.dom() =~= old_map.dom().filter(|k: Key| old_map[k].age != delete));
            vstd::set_lib::lemma_len_subset(self.map@.dom(), old_map.dom());
        }
        self.delete = !self.delete;
        before - self.map.len()
    }

    pub fn len(&self) -> (r: usize)
        ensures r == self@.0.len(),
    {
        self.map.len()
    }
}

} // verus!
