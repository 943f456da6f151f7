//! The replicated application: a deterministic key-value store.
//!
//! `Op` is the input vocabulary clients submit, `Output` the result
//! vocabulary replies carry. `kv_run` is the mathematical meaning of a
//! history of applied operations; `StateMachine` is the interface through
//! which a replica applies committed operations, and `KvState` is the
//! store itself, verified against that meaning.

use vstd::pervasive::VecAdditionalExecFns;
use vstd::prelude::*;

verus! {

/// An operation on the replicated key-value store.
#[derive(Clone, Debug, PartialEq)]
pub enum Op {
    /// Bind a key to a value.
    Put(String, u64),
    /// Read a key.
    Get(String),
    /// Unbind a key.
    Del(String),
}

/// The result of applying one `Op`.
#[derive(Clone, Debug, PartialEq)]
pub enum Output {
    /// A `Put` or `Del` finished.
    Done,
    /// The value a `Get` found, if any.
    Value(Option<u64>),
}

/// The mathematical value of an [`Op`]: keys as character sequences.
pub enum OpV {
    Put(Seq<char>, u64),
    Get(Seq<char>),
    Del(Seq<char>),
}

impl View for Op {
    type V = OpV;

    open spec fn view(&self) -> OpV {
        match self {
            Op::Put(k, v) => OpV::Put(k@, *v),
            Op::Get(k) => OpV::Get(k@),
            Op::Del(k) => OpV::Del(k@),
        }
    }
}

/// The store a single operation leaves behind.
pub open spec fn kv_step(m: Map<Seq<char>, u64>, op: Op) -> Map<Seq<char>, u64> {
    match op {
        Op::Put(k, v) => m.insert(k@, v),
        Op::Get(_) => m,
        Op::Del(k) => m.remove(k@),
    }
}

/// The result a single operation produces on store `m`.
pub open spec fn kv_output(m: Map<Seq<char>, u64>, op: Op) -> Output {
    match op {
        Op::Put(_, _) => Output::Done,
        Op::Get(k) => Output::Value(
            if m.dom().contains(k@) {
                Some(m[k@])
            } else {
                None
            },
        ),
        Op::Del(_) => Output::Done,
    }
}

/// The store a whole history of operations leaves behind, oldest first.
pub open spec fn kv_run(h: Seq<Op>) -> Map<Seq<char>, u64>
    decreases h.len(),
{
    if h.len() == 0 {
        Map::empty()
    } else {
        kv_step(kv_run(h.drop_last()), h.last())
    }
}

/// What applying `op` after history `h` must return: a function of the
/// history and the operation alone, which is what makes replies
/// deterministic across replicas and across replays.
pub open spec fn output_for(h: Seq<Op>, op: Op) -> Output {
    kv_output(kv_run(h), op)
}

/// The application a replica drives. A replica applies committed
/// operations exactly once each, in log order; in return every
/// implementation must compute a function of the history alone.
pub trait StateMachine: Sized {
    /// The implementation's internal well-formedness.
    spec fn inv(&self) -> bool;

    /// The operations applied so far, oldest first.
    spec fn history(&self) -> Seq<Op>;

    /// Apply one operation and return its result.
    fn apply(&mut self, input: Op) -> (out: Output)
        requires
            old(self).inv(),
        ensures
            final(self).inv(),
            final(self).history() == old(self).history().push(input),
            out == output_for(old(self).history(), input),
    ;
}

/// Running one more operation steps the store it leaves behind.
pub proof fn lemma_kv_run_push(h: Seq<Op>, op: Op)
    ensures
        kv_run(h.push(op)) == kv_step(kv_run(h), op),
{
    assert(h.push(op).drop_last() =~= h);
    assert(h.push(op).last() == op);
}

/// `true` when no key appears twice in the entry list.
pub open spec fn unique_keys(s: Seq<(String, u64)>) -> bool {
    forall|i: int, j: int| 0 <= i < j < s.len() ==> s[i].0@ != s[j].0@
}

/// The map an entry list denotes (later entries win, but the store keeps
/// keys unique, so order never matters).
pub open spec fn entries_map(s: Seq<(String, u64)>) -> Map<Seq<char>, u64>
    decreases s.len(),
{
    if s.len() == 0 {
        Map::empty()
    } else {
        entries_map(s.drop_last()).insert(s.last().0@, s.last().1)
    }
}

/// A key is in the map exactly when some entry carries it.
pub proof fn lemma_entries_map_contains(s: Seq<(String, u64)>, k: Seq<char>)
    ensures
        entries_map(s).dom().contains(k) <==> exists|i: int| 0 <= i < s.len() && s[i].0@ == k,
    decreases s.len(),
{
    if s.len() > 0 {
        lemma_entries_map_contains(s.drop_last(), k);
        if s.last().0@ != k && entries_map(s).dom().contains(k) {
            let i = choose|i: int| 0 <= i < s.len() - 1 && s.drop_last()[i].0@ == k;
            assert(s[i].0@ == k);
        }
        if exists|i: int| 0 <= i < s.len() && s[i].0@ == k {
            let i = choose|i: int| 0 <= i < s.len() && s[i].0@ == k;
            if i < s.len() - 1 {
                assert(s.drop_last()[i].0@ == k);
            }
        }
    }
}

/// With unique keys, the entry that carries a key decides its value.
pub proof fn lemma_entries_map_value(s: Seq<(String, u64)>, i: int)
    requires
        unique_keys(s),
        0 <= i < s.len(),
    ensures
        entries_map(s).dom().contains(s[i].0@),
        entries_map(s)[s[i].0@] == s[i].1,
    decreases s.len(),
{
    lemma_entries_map_contains(s, s[i].0@);
    if i < s.len() - 1 {
        assert(s.drop_last()[i] == s[i]);
        lemma_entries_map_value(s.drop_last(), i);
        assert(s.last().0@ != s[i].0@);
    }
}

/// With unique keys, replacing the entry at `i` updates just its key.
pub proof fn lemma_entries_map_update(s: Seq<(String, u64)>, i: int, e: (String, u64))
    requires
        unique_keys(s),
        0 <= i < s.len(),
        e.0@ == s[i].0@,
    ensures
        entries_map(s.update(i, e)) =~= entries_map(s).insert(e.0@, e.1),
    decreases s.len(),
{
    let t = s.update(i, e);
    if i == s.len() - 1 {
        assert(t.drop_last() =~= s.drop_last());
        assert(t.last() == e);
    } else {
        assert(t.drop_last() =~= s.drop_last().update(i, e));
        assert(t.last() == s.last());
        lemma_entries_map_update(s.drop_last(), i, e);
        assert(s.last().0@ != s[i].0@);
    }
}

/// With unique keys, removing the entry at `i` removes just its key.
pub proof fn lemma_entries_map_remove(s: Seq<(String, u64)>, i: int)
    requires
        unique_keys(s),
        0 <= i < s.len(),
    ensures
        entries_map(s.remove(i)) =~= entries_map(s).remove(s[i].0@),
    decreases s.len(),
{
    let t = s.remove(i);
    if i == s.len() - 1 {
        assert(t =~= s.drop_last());
        lemma_entries_map_contains(s.drop_last(), s[i].0@);
        assert(entries_map(s.drop_last()) =~= entries_map(s.drop_last()).remove(s[i].0@));
    } else {
        assert(t.drop_last() =~= s.drop_last().remove(i));
        assert(t.last() == s.last());
        lemma_entries_map_remove(s.drop_last(), i);
        assert(s.last().0@ != s[i].0@);
    }
}

/// The key-value store: a list of entries with pairwise distinct keys,
/// together with the history that produced it.
pub struct KvState {
    entries: Vec<(String, u64)>,
    applied: Ghost<Seq<Op>>,
}

impl KvState {
    /// The store as a map.
    pub closed spec fn view(&self) -> Map<Seq<char>, u64> {
        entries_map(self.entries@)
    }

    /// An empty store with an empty history.
    pub fn new() -> (r: KvState)
        ensures
            r.inv(),
            r.history() == Seq::<Op>::empty(),
            r@ == Map::<Seq<char>, u64>::empty(),
    {
        KvState { entries: Vec::new(), applied: Ghost(Seq::empty()) }
    }

    /// The index of the entry carrying `k`, if one does.
    fn find(&self, k: &String) -> (r: Option<usize>)
        ensures
            match r {
                Some(i) => i < self.entries@.len() && self.entries@[i as int].0@ == k@,
                None => forall|i: int| 0 <= i < self.entries@.len() ==> self.entries@[i].0@ != k@,
            },
    {
        let mut i: usize = 0;
        while i < self.entries.len()
            invariant
                i <= self.entries@.len(),
                forall|j: int| 0 <= j < i ==> self.entries@[j].0@ != k@,
            decreases self.entries@.len() - i,
        {
            if self.entries[i].0 == *k {
                return Some(i);
            }
            i = i + 1;
        }
        None
    }

    /// Read a key.
    pub fn lookup(&self, k: &String) -> (r: Option<u64>)
        requires
            self.inv(),
        ensures
            r == (if self@.dom().contains(k@) {
                Some(self@[k@])
            } else {
                None::<u64>
            }),
    {
        match self.find(k) {
            Some(i) => {
                proof {
                    lemma_entries_map_value(self.entries@, i as int);
                }
                Some(self.entries[i].1)
            },
            None => {
                proof {
                    lemma_entries_map_contains(self.entries@, k@);
                }
                None
            },
        }
    }

    fn put(&mut self, k: &String, v: u64)
        requires
            old(self).inv(),
        ensures
            final(self)@ =~= old(self)@.insert(k@, v),
            unique_keys(final(self).entries@),
            final(self).applied == old(self).applied,
    {
        let e = (k.clone(), v);
        match self.find(k) {
            Some(i) => {
                proof {
                    lemma_entries_map_update(self.entries@, i as int, e);
                }
                self.entries.set(i, e);
            },
            None => {
                proof {
                    lemma_entries_map_contains(self.entries@, k@);
                    assert(self.entries@.push(e).drop_last() =~= self.entries@);
                }
                self.entries.push(e);
            },
        }
    }

    fn drop_key(&mut self, k: &String)
        requires
            old(self).inv(),
        ensures
            final(self)@ =~= old(self)@.remove(k@),
            unique_keys(final(self).entries@),
            final(self).applied == old(self).applied,
    {
        match self.find(k) {
            Some(i) => {
                proof {
                    lemma_entries_map_remove(self.entries@, i as int);
                    assert(forall|x: int, y: int|
                        0 <= x < y < self.entries@.remove(i as int).len() ==> self.entries@.remove(
                            i as int,
                        )[x].0@ != self.entries@.remove(i as int)[y].0@);
                }
                self.entries.remove(i);
            },
            None => {
                proof {
                    lemma_entries_map_contains(self.entries@, k@);
                    assert(self@ =~= self@.remove(k@));
                }
            },
        }
    }
}

/// A well-formed store is exactly what its history built.
pub proof fn lemma_kv_view(s: &KvState)
    requires
        s.inv(),
    ensures
        s@ == kv_run(s.history()),
{
}

impl StateMachine for KvState {
    /// Keys are unique and the store is exactly what the history built.
    closed spec fn inv(&self) -> bool {
        &&& unique_keys(self.entries@)
        &&& entries_map(self.entries@) == kv_run(self.applied@)
    }

    closed spec fn history(&self) -> Seq<Op> {
        self.applied@
    }

    fn apply(&mut self, input: Op) -> (out: Output) {
        proof {
            assert(self.applied@.push(input).drop_last() =~= self.applied@);
        }
        let ghost h = self.applied@;
        let out = match &input {
            Op::Put(k, v) => {
                let value = *v;
                self.put(k, value);
                Output::Done
            },
            Op::Get(k) => Output::Value(self.lookup(k)),
            Op::Del(k) => {
                self.drop_key(k);
                Output::Done
            },
        };
        proof {
            self.applied@ = h.push(input);
        }
        out
    }
}

} // verus!
