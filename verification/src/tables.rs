//! The compilation session's tables: labels, routines, and the float
//! evaluation table. Each is an insertion list whose view is the map from
//! the latest binding of each key; a later insertion shadows an earlier one,
//! which matches the write-over behaviour of label redeclaration.

use vstd::prelude::*;

use crate::tokens::{copy_tokens, toks_view, Tok, Token};

verus! {

/// Two byte strings hold the same bytes.
pub fn bytes_eq(a: &Vec<u8>, b: &Vec<u8>) -> (r: bool)
    ensures
        r == (a@ == b@),
{
    if a.len() != b.len() {
        proof {
            assert(a@ != b@);
        }
        return false;
    }
    let n = a.len();
    let mut i: usize = 0;
    while i < n
        invariant
            i <= n,
            n == a@.len(),
            n == b@.len(),
            forall|q: int| 0 <= q < i ==> a@[q] == b@[q],
        decreases n - i,
    {
        if a[i] != b[i] {
            proof {
                assert(a@ != b@);
            }
            return false;
        }
        i = i + 1;
    }
    proof {
        assert(a@ =~= b@);
    }
    true
}

// ---------------------------------------------------------------------------
// Byte-keyed table of 64-bit values: labels, float numerals
// ---------------------------------------------------------------------------
/// The map denoted by an insertion list: the last binding of a key wins.
pub open spec fn byte_entries_map(es: Seq<(Vec<u8>, u64)>) -> Map<Seq<u8>, u64>
    decreases es.len(),
{
    if es.len() == 0 {
        Map::empty()
    } else {
        byte_entries_map(es.drop_last()).insert(es.last().0@, es.last().1)
    }
}

proof fn lemma_byte_entries_absent(es: Seq<(Vec<u8>, u64)>, name: Seq<u8>, j: int)
    requires
        0 <= j <= es.len(),
        forall|q: int| j <= q < es.len() ==> (#[trigger] es[q]).0@ != name,
    ensures
        byte_entries_map(es).contains_key(name) <==> byte_entries_map(es.take(j)).contains_key(
            name,
        ),
        byte_entries_map(es).contains_key(name) ==> byte_entries_map(es)[name] == byte_entries_map(
            es.take(j),
        )[name],
    decreases es.len() - j,
{
    if j < es.len() {
        lemma_byte_entries_absent(es, name, j + 1);
        assert(es.take(j + 1).drop_last() =~= es.take(j));
        assert(es.take(j + 1).last() == es[j]);
    } else {
        assert(es.take(j) =~= es);
    }
}

/// A table from byte-string names to 64-bit values. It backs both the
/// label table (name to instruction-region offset) and the float numeral
/// table (numeral text to payload bits).
pub struct ByteTable {
    entries: Vec<(Vec<u8>, u64)>,
}

impl View for ByteTable {
    type V = Map<Seq<u8>, u64>;

    closed spec fn view(&self) -> Map<Seq<u8>, u64> {
        byte_entries_map(self.entries@)
    }
}

impl ByteTable {
    /// An empty table.
    pub fn new() -> (r: ByteTable)
        ensures
            r@ == Map::<Seq<u8>, u64>::empty(),
    {
        ByteTable { entries: Vec::new() }
    }

    /// Bind `name` to `value`, shadowing any earlier binding.
    pub fn insert(&mut self, name: Vec<u8>, value: u64)
        ensures
            final(self)@ == old(self)@.insert(name@, value),
    {
        let ghost es0 = self.entries@;
        let ghost nv = name@;
        self.entries.push((name, value));
        proof {
            assert(self.entries@.drop_last() =~= es0);
            assert(self.entries@.last().0@ == nv);
        }
    }

    /// The value bound to `name`, if any.
    pub fn get(&self, name: &Vec<u8>) -> (r: Option<u64>)
        ensures
            match r {
                Some(v) => self@.contains_key(name@) && self@[name@] == v,
                None => !self@.contains_key(name@),
            },
    {
        let n = self.entries.len();
        let mut idx = n;
        while idx > 0
            invariant
                idx <= n,
                n == self.entries@.len(),
                forall|q: int| idx <= q < n ==> (#[trigger] self.entries@[q]).0@ != name@,
            decreases idx,
        {
            idx = idx - 1;
            if bytes_eq(&self.entries[idx].0, name) {
                proof {
                    lemma_byte_entries_absent(self.entries@, name@, idx + 1);
                    assert(self.entries@.take(idx + 1).drop_last() =~= self.entries@.take(
                        idx as int,
                    ));
                    assert(self.entries@.take(idx + 1).last() == self.entries@[idx as int]);
                }
                return Some(self.entries[idx].1);
            }
        }
        proof {
            lemma_byte_entries_absent(self.entries@, name@, 0);
            assert(self.entries@.take(0) =~= Seq::<(Vec<u8>, u64)>::empty());
        }
        None
    }
}

// ---------------------------------------------------------------------------
// Routine table
// ---------------------------------------------------------------------------
/// The map denoted by a routine insertion list, bodies abstracted.
pub open spec fn routine_entries_map(es: Seq<(Vec<u8>, Vec<Token>)>) -> Map<Seq<u8>, Seq<Tok>>
    decreases es.len(),
{
    if es.len() == 0 {
        Map::empty()
    } else {
        routine_entries_map(es.drop_last()).insert(es.last().0@, toks_view(es.last().1@))
    }
}

proof fn lemma_routine_entries_absent(es: Seq<(Vec<u8>, Vec<Token>)>, name: Seq<u8>, j: int)
    requires
        0 <= j <= es.len(),
        forall|q: int| j <= q < es.len() ==> (#[trigger] es[q]).0@ != name,
    ensures
        routine_entries_map(es).contains_key(name) <==> routine_entries_map(
            es.take(j),
        ).contains_key(name),
        routine_entries_map(es).contains_key(name) ==> routine_entries_map(es)[name]
            == routine_entries_map(es.take(j))[name],
    decreases es.len() - j,
{
    if j < es.len() {
        lemma_routine_entries_absent(es, name, j + 1);
        assert(es.take(j + 1).drop_last() =~= es.take(j));
        assert(es.take(j + 1).last() == es[j]);
    } else {
        assert(es.take(j) =~= es);
    }
}

/// The table from routine names to their unexpanded token bodies. Each
/// `call` compiles a private copy of the stored body.
pub struct RoutineTable {
    entries: Vec<(Vec<u8>, Vec<Token>)>,
}

impl View for RoutineTable {
    type V = Map<Seq<u8>, Seq<Tok>>;

    closed spec fn view(&self) -> Map<Seq<u8>, Seq<Tok>> {
        routine_entries_map(self.entries@)
    }
}

impl RoutineTable {
    /// An empty table.
    pub fn new() -> (r: RoutineTable)
        ensures
            r@ == Map::<Seq<u8>, Seq<Tok>>::empty(),
    {
        RoutineTable { entries: Vec::new() }
    }

    /// Register `body` under `name`, shadowing any earlier registration.
    pub fn insert(&mut self, name: Vec<u8>, body: Vec<Token>)
        ensures
            final(self)@ == old(self)@.insert(name@, toks_view(body@)),
    {
        let ghost es0 = self.entries@;
        let ghost nv = name@;
        let ghost bv = toks_view(body@);
        self.entries.push((name, body));
        proof {
            assert(self.entries@.drop_last() =~= es0);
            assert(self.entries@.last().0@ == nv);
            assert(toks_view(self.entries@.last().1@) == bv);
        }
    }

    /// A fresh copy of the body registered under `name`, if any.
    pub fn get_copy(&self, name: &Vec<u8>) -> (r: Option<Vec<Token>>)
        ensures
            match r {
                Some(v) => self@.contains_key(name@) && toks_view(v@) == self@[name@],
                None => !self@.contains_key(name@),
            },
    {
        let n = self.entries.len();
        let mut idx = n;
        while idx > 0
            invariant
                idx <= n,
                n == self.entries@.len(),
                forall|q: int| idx <= q < n ==> (#[trigger] self.entries@[q]).0@ != name@,
            decreases idx,
        {
            idx = idx - 1;
            if bytes_eq(&self.entries[idx].0, name) {
                proof {
                    lemma_routine_entries_absent(self.entries@, name@, idx + 1);
                    assert(self.entries@.take(idx + 1).drop_last() =~= self.entries@.take(
                        idx as int,
                    ));
                    assert(self.entries@.take(idx + 1).last() == self.entries@[idx as int]);
                }
                return Some(copy_tokens(&self.entries[idx].1));
            }
        }
        proof {
            lemma_routine_entries_absent(self.entries@, name@, 0);
            assert(self.entries@.take(0) =~= Seq::<(Vec<u8>, Vec<Token>)>::empty());
        }
        None
    }
}

// ---------------------------------------------------------------------------
// Float evaluation table
// ---------------------------------------------------------------------------
/// A float arithmetic operation folded at compile time.
#[derive(Debug, Clone, Copy, PartialEq, Eq, Structural)]
pub enum FloatOp {
    Add,
    Sub,
    Mul,
    Div,
}

/// The map denoted by a fold insertion list.
pub open spec fn fold_entries_map(es: Seq<(FloatOp, Vec<u8>, Vec<u8>, u64)>) -> Map<
    (FloatOp, Seq<u8>, Seq<u8>),
    u64,
>
    decreases es.len(),
{
    if es.len() == 0 {
        Map::empty()
    } else {
        fold_entries_map(es.drop_last()).insert(
            (es.last().0, es.last().1@, es.last().2@),
            es.last().3,
        )
    }
}

proof fn lemma_fold_entries_absent(
    es: Seq<(FloatOp, Vec<u8>, Vec<u8>, u64)>,
    key: (FloatOp, Seq<u8>, Seq<u8>),
    j: int,
)
    requires
        0 <= j <= es.len(),
        forall|q: int|
            j <= q < es.len() ==> ((#[trigger] es[q]).0, es[q].1@, es[q].2@) != key,
    ensures
        fold_entries_map(es).contains_key(key) <==> fold_entries_map(es.take(j)).contains_key(key),
        fold_entries_map(es).contains_key(key) ==> fold_entries_map(es)[key] == fold_entries_map(
            es.take(j),
        )[key],
    decreases es.len() - j,
{
    if j < es.len() {
        lemma_fold_entries_absent(es, key, j + 1);
        assert(es.take(j + 1).drop_last() =~= es.take(j));
        assert(es.take(j + 1).last() == es[j]);
    } else {
        assert(es.take(j) =~= es);
    }
}

/// The evaluation table the caller supplies to the code generator: the
/// payload bits of each float numeral, and the bits of each constant fold
/// of two float numerals. The verifier does not admit floating point, so
/// these values are computed outside the library (by the embedding
/// program, with the host's float arithmetic) and only consumed here.
pub struct FloatEval {
    numerals: ByteTable,
    folds: Vec<(FloatOp, Vec<u8>, Vec<u8>, u64)>,
}

/// The mathematical image of a [`FloatEval`].
pub ghost struct FloatTabs {
    pub nums: Map<Seq<u8>, u64>,
    pub folds: Map<(FloatOp, Seq<u8>, Seq<u8>), u64>,
}

impl View for FloatEval {
    type V = FloatTabs;

    closed spec fn view(&self) -> FloatTabs {
        FloatTabs { nums: self.numerals@, folds: fold_entries_map(self.folds@) }
    }
}

impl FloatEval {
    /// An empty table: every float construct is then unresolved.
    pub fn new() -> (r: FloatEval)
        ensures
            r@.nums == Map::<Seq<u8>, u64>::empty(),
            r@.folds == Map::<(FloatOp, Seq<u8>, Seq<u8>), u64>::empty(),
    {
        FloatEval { numerals: ByteTable::new(), folds: Vec::new() }
    }

    /// Record the payload bits of the numeral `text`.
    pub fn add_numeral(&mut self, text: Vec<u8>, bits: u64)
        ensures
            final(self)@.nums == old(self)@.nums.insert(text@, bits),
            final(self)@.folds == old(self)@.folds,
    {
        self.numerals.insert(text, bits);
    }

    /// Record the result bits of folding `op` over two numerals.
    pub fn add_fold(&mut self, op: FloatOp, lhs: Vec<u8>, rhs: Vec<u8>, bits: u64)
        ensures
            final(self)@.nums == old(self)@.nums,
            final(self)@.folds == old(self)@.folds.insert((op, lhs@, rhs@), bits),
    {
        let ghost es0 = self.folds@;
        self.folds.push((op, lhs, rhs, bits));
        proof {
            assert(self.folds@.drop_last() =~= es0);
        }
    }

    /// The payload bits of the numeral `text`, if recorded.
    pub fn numeral_bits(&self, text: &Vec<u8>) -> (r: Option<u64>)
        ensures
            match r {
                Some(v) => self@.nums.contains_key(text@) && self@.nums[text@] == v,
                None => !self@.nums.contains_key(text@),
            },
    {
        self.numerals.get(text)
    }

    /// The result bits of folding `op` over two numerals, if recorded.
    pub fn fold_bits(&self, op: FloatOp, lhs: &Vec<u8>, rhs: &Vec<u8>) -> (r: Option<u64>)
        ensures
            match r {
                Some(v) => self@.folds.contains_key((op, lhs@, rhs@)) && self@.folds[(
                    op,
                    lhs@,
                    rhs@,
                )] == v,
                None => !self@.folds.contains_key((op, lhs@, rhs@)),
            },
    {
        let ghost key = (op, lhs@, rhs@);
        let n = self.folds.len();
        let mut idx = n;
        while idx > 0
            invariant
                idx <= n,
                n == self.folds@.len(),
                key == (op, lhs@, rhs@),
                forall|q: int|
                    idx <= q < n ==> ((#[trigger] self.folds@[q]).0, self.folds@[q].1@,
                    self.folds@[q].2@) != key,
            decreases idx,
        {
            idx = idx - 1;
            let hit = self.folds[idx].0 == op && bytes_eq(&self.folds[idx].1, lhs) && bytes_eq(
                &self.folds[idx].2,
                rhs,
            );
            if hit {
                proof {
                    lemma_fold_entries_absent(self.folds@, key, idx + 1);
                    assert(self.folds@.take(idx + 1).drop_last() =~= self.folds@.take(idx as int));
                    assert(self.folds@.take(idx + 1).last() == self.folds@[idx as int]);
                }
                return Some(self.folds[idx].3);
            }
        }
        proof {
            lemma_fold_entries_absent(self.folds@, key, 0);
            assert(self.folds@.take(0) =~= Seq::<(FloatOp, Vec<u8>, Vec<u8>, u64)>::empty());
        }
        None
    }
}

/// The header-region bookkeeping of one compilation: how many counted
/// flag and filler bytes were emitted, and whether `endhead` closed the
/// region with its terminating zero byte.
#[derive(Debug, Clone, Copy, PartialEq, Eq, Structural)]
pub struct HeaderState {
    pub size: usize,
    pub closed: bool,
}

impl HeaderState {
    /// The state before any header byte.
    pub fn new() -> (r: HeaderState)
        ensures
            r.size == 0,
            !r.closed,
    {
        HeaderState { size: 0, closed: false }
    }
}

} // verus!
