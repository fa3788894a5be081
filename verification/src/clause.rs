//! Clauses and the keys they are aggregated under.
//!
//! A clause is a series of signed literals. Its key is the same literals in
//! one fixed order: by magnitude, and where two literals have the same
//! magnitude, the negative one first. So a clause is found again whatever
//! order its literals were sent in.

use vstd::prelude::*;
use vstd::relations::*;
use vstd::seq_lib::*;

verus! {

/// The absolute value of a literal.
pub open spec fn magnitude(literal: int) -> int {
    if literal < 0 {
        -literal
    } else {
        literal
    }
}

/// Whether `a` may stand before `b` in a key: it is smaller in magnitude,
/// or of the same magnitude and not greater in value.
pub open spec fn precedes(a: i32, b: i32) -> bool {
    magnitude(a as int) < magnitude(b as int) || (magnitude(a as int) == magnitude(b as int) && a
        <= b)
}

/// The order of the literals in a key, as a relation.
pub open spec fn key_order() -> spec_fn(i32, i32) -> bool {
    |a: i32, b: i32| precedes(a, b)
}

/// Every literal may stand before those behind it.
pub open spec fn ordered(key: Seq<i32>) -> bool {
    forall|i: int, j: int| 0 <= i < j < key.len() ==> precedes(#[trigger] key[i], #[trigger] key[j])
}

/// Whether `key` is the key of the clause `literals`: it holds the
/// literals of the clause, each as often as the clause does, in order.
pub open spec fn is_key_of(key: Seq<i32>, literals: Seq<i32>) -> bool {
    ordered(key) && key.to_multiset() == literals.to_multiset()
}

/// An ordered `key` with `literal` put in at its place.
pub open spec fn place(key: Seq<i32>, literal: i32) -> Seq<i32>
    decreases key.len(),
{
    if key.len() == 0 {
        seq![literal]
    } else if precedes(key.last(), literal) {
        key.push(literal)
    } else {
        place(key.drop_last(), literal).push(key.last())
    }
}

/// The key of a clause: its literals put in order one by one.
pub open spec fn normalized(literals: Seq<i32>) -> Seq<i32>
    decreases literals.len(),
{
    if literals.len() == 0 {
        Seq::empty()
    } else {
        place(normalized(literals.drop_last()), literals.last())
    }
}

/// One reported measurement: a clause's key, and the metric value measured
/// for this occurrence of the clause.
pub struct Record {
    pub key: Seq<i32>,
    pub metric: i32,
}

/// One reported measurement, as received.
#[derive(Clone, Debug)]
pub struct ClauseData {
    /// The clause's key: its literals in order.
    pub literals: Vec<i32>,
    /// The metric value reported with the clause.
    pub lbd: i32,
}

impl View for ClauseData {
    type V = Record;

    open spec fn view(&self) -> Record {
        Record { key: self.literals@, metric: self.lbd }
    }
}

/// The measurements held by a series of received clauses.
pub open spec fn records_of(clauses: Seq<ClauseData>) -> Seq<Record> {
    clauses.map_values(|data: ClauseData| data@)
}

/// The absolute value of a literal. It always fits: the magnitude of the
/// least 32-bit integer is one more than the greatest.
pub fn magnitude_of(literal: i32) -> (m: u32)
    ensures
        m == magnitude(literal as int),
{
    if literal < 0 {
        let wide: i64 = -(literal as i64);
        wide as u32
    } else {
        literal as u32
    }
}

/// Whether `a` may stand before `b` in a key.
pub fn comes_first(a: i32, b: i32) -> (first: bool)
    ensures
        first == precedes(a, b),
{
    let ma: u32 = magnitude_of(a);
    let mb: u32 = magnitude_of(b);
    ma < mb || (ma == mb && a <= b)
}

/// Merges two ordered runs of literals into one.
fn merge(a: &Vec<i32>, b: &Vec<i32>) -> (out: Vec<i32>)
    requires
        ordered(a@),
        ordered(b@),
    ensures
        ordered(out@),
        out@.to_multiset() == a@.to_multiset().add(b@.to_multiset()),
{
    let mut out: Vec<i32> = Vec::new();
    let mut i: usize = 0;
    let mut j: usize = 0;
    proof {
        assert(a@.take(0) =~= Seq::<i32>::empty());
        assert(b@.take(0) =~= Seq::<i32>::empty());
        let nothing = Seq::<i32>::empty();
        assert(out@ =~= nothing);
        assert(nothing + nothing =~= nothing);
        lemma_multiset_commutative(nothing, nothing);
    }
    while i < a.len() || j < b.len()
        invariant
            i <= a.len(),
            j <= b.len(),
            ordered(a@),
            ordered(b@),
            ordered(out@),
            forall|k: int, n: int|
                0 <= k < out@.len() && i <= n < a@.len() ==> precedes(
                    #[trigger] out@[k],
                    #[trigger] a@[n],
                ),
            forall|k: int, n: int|
                0 <= k < out@.len() && j <= n < b@.len() ==> precedes(
                    #[trigger] out@[k],
                    #[trigger] b@[n],
                ),
            out@.to_multiset() == a@.take(i as int).to_multiset().add(
                b@.take(j as int).to_multiset(),
            ),
        decreases (a.len() - i) + (b.len() - j),
    {
        let from_first: bool = if i == a.len() {
            false
        } else if j == b.len() {
            true
        } else {
            comes_first(a[i], b[j])
        };
        let ghost before = out@;
        if from_first {
            let x: i32 = a[i];
            proof {
                assert(a@.take(i + 1) =~= a@.take(i as int).push(x));
                to_multiset_build(before, x);
                to_multiset_build(a@.take(i as int), x);
                assert(before.push(x).to_multiset() =~= a@.take(i + 1).to_multiset().add(
                    b@.take(j as int).to_multiset(),
                ));
                lemma_push_keeps_order(before, x);
                assert forall|k: int, n: int|
                    0 <= k < before.len() + 1 && i + 1 <= n < a@.len() implies precedes(
                    #[trigger] before.push(x)[k],
                    #[trigger] a@[n],
                ) by {
                    if k < before.len() {
                        assert(precedes(before[k], a@[n]));
                    } else {
                        assert(precedes(a@[i as int], a@[n]));
                    }
                }
                assert forall|k: int, n: int|
                    0 <= k < before.len() + 1 && j <= n < b@.len() implies precedes(
                    #[trigger] before.push(x)[k],
                    #[trigger] b@[n],
                ) by {
                    if k < before.len() {
                        assert(precedes(before[k], b@[n]));
                    } else if n > j {
                        assert(precedes(b@[j as int], b@[n]));
                    }
                }
            }
            out.push(x);
            i = i + 1;
        } else {
            let y: i32 = b[j];
            proof {
                assert(b@.take(j + 1) =~= b@.take(j as int).push(y));
                to_multiset_build(before, y);
                to_multiset_build(b@.take(j as int), y);
                assert(before.push(y).to_multiset() =~= a@.take(i as int).to_multiset().add(
                    b@.take(j + 1).to_multiset(),
                ));
                lemma_push_keeps_order(before, y);
                assert forall|k: int, n: int|
                    0 <= k < before.len() + 1 && i <= n < a@.len() implies precedes(
                    #[trigger] before.push(y)[k],
                    #[trigger] a@[n],
                ) by {
                    if k < before.len() {
                        assert(precedes(before[k], a@[n]));
                    } else if n > i {
                        assert(precedes(a@[i as int], a@[n]));
                    }
                }
                assert forall|k: int, n: int|
                    0 <= k < before.len() + 1 && j + 1 <= n < b@.len() implies precedes(
                    #[trigger] before.push(y)[k],
                    #[trigger] b@[n],
                ) by {
                    if k < before.len() {
                        assert(precedes(before[k], b@[n]));
                    } else {
                        assert(precedes(b@[j as int], b@[n]));
                    }
                }
            }
            out.push(y);
            j = j + 1;
        }
    }
    proof {
        assert(a@.take(a.len() as int) =~= a@);
        assert(b@.take(b.len() as int) =~= b@);
    }
    out
}

/// Puts the literals from place `from` up to place `to` in order.
fn sort_range(literals: &Vec<i32>, from: usize, to: usize) -> (key: Vec<i32>)
    requires
        from <= to <= literals.len(),
    ensures
        is_key_of(key@, literals@.subrange(from as int, to as int)),
    decreases to - from,
{
    let ghost part = literals@.subrange(from as int, to as int);
    if to - from <= 1 {
        let mut key: Vec<i32> = Vec::new();
        if from < to {
            key.push(literals[from]);
        }
        proof {
            assert(key@ =~= part);
        }
        key
    } else {
        let mid: usize = from + (to - from) / 2;
        let left = sort_range(literals, from, mid);
        let right = sort_range(literals, mid, to);
        let key = merge(&left, &right);
        proof {
            let first = literals@.subrange(from as int, mid as int);
            let second = literals@.subrange(mid as int, to as int);
            assert(first + second =~= part);
            lemma_multiset_commutative(first, second);
        }
        key
    }
}

/// Puts the literals of a clause in order, giving the clause's key: the
/// same literals, each as often, by magnitude and then by value.
pub fn normalize(literals: Vec<i32>) -> (key: Vec<i32>)
    ensures
        key@ == normalized(literals@),
        ordered(key@),
        key@.to_multiset() == literals@.to_multiset(),
{
    let key = sort_range(&literals, 0, literals.len());
    proof {
        assert(literals@.subrange(0, literals.len() as int) =~= literals@);
        lemma_normalized_is_key(literals@);
        lemma_key_is_unique(key@, normalized(literals@), literals@);
    }
    key
}

/// A literal that may stand behind all of an ordered key leaves it ordered
/// when it is put at the end.
proof fn lemma_push_keeps_order(key: Seq<i32>, literal: i32)
    requires
        ordered(key),
        forall|k: int| 0 <= k < key.len() ==> precedes(#[trigger] key[k], literal),
    ensures
        ordered(key.push(literal)),
{
    assert forall|i: int, j: int| 0 <= i < j < key.len() + 1 implies precedes(
        #[trigger] key.push(literal)[i],
        #[trigger] key.push(literal)[j],
    ) by {
        if j < key.len() {
            assert(precedes(key[i], key[j]));
        } else {
            assert(precedes(key[i], literal));
        }
    }
}

/// The part of an ordered key before its last literal is ordered.
proof fn lemma_ordered_drop_last(key: Seq<i32>)
    requires
        ordered(key),
        key.len() > 0,
    ensures
        ordered(key.drop_last()),
{
    let head = key.drop_last();
    assert forall|i: int, j: int| 0 <= i < j < head.len() implies precedes(
        #[trigger] head[i],
        #[trigger] head[j],
    ) by {
        assert(precedes(key[i], key[j]));
    }
}

/// Putting a literal into a key keeps all literals and adds the one.
proof fn lemma_place_keeps_literals(key: Seq<i32>, literal: i32)
    ensures
        place(key, literal).len() == key.len() + 1,
        place(key, literal).to_multiset() == key.to_multiset().insert(literal),
    decreases key.len(),
{
    broadcast use group_to_multiset_ensures;

    if key.len() == 0 {
        assert(seq![literal] =~= key.push(literal));
    } else if precedes(key.last(), literal) {
    } else {
        lemma_place_keeps_literals(key.drop_last(), literal);
        assert(key.drop_last().push(key.last()) =~= key);
        assert(place(key, literal).to_multiset() =~= key.to_multiset().insert(literal));
    }
}

/// Every literal of the key with the new one in it is the new one or was in
/// the key before.
proof fn lemma_place_members(key: Seq<i32>, literal: i32, i: int)
    requires
        0 <= i < place(key, literal).len(),
    ensures
        place(key, literal)[i] == literal || key.contains(place(key, literal)[i]),
    decreases key.len(),
{
    if key.len() == 0 {
    } else if precedes(key.last(), literal) {
        if i < key.len() {
            assert(key[i] == place(key, literal)[i]);
        }
    } else {
        lemma_place_keeps_literals(key.drop_last(), literal);
        if i < key.len() {
            lemma_place_members(key.drop_last(), literal, i);
            let found: i32 = place(key, literal)[i];
            if found != literal {
                let k: int = choose|k: int|
                    0 <= k < key.drop_last().len() && key.drop_last()[k] == found;
                assert(key[k] == found);
            }
        } else {
            assert(key[key.len() - 1] == place(key, literal)[i]);
        }
    }
}

/// Putting a literal into an ordered key leaves it ordered.
proof fn lemma_place_keeps_order(key: Seq<i32>, literal: i32)
    requires
        ordered(key),
    ensures
        ordered(place(key, literal)),
    decreases key.len(),
{
    if key.len() == 0 {
    } else if precedes(key.last(), literal) {
        assert forall|k: int| 0 <= k < key.len() implies precedes(#[trigger] key[k], literal) by {
            if k < key.len() - 1 {
                assert(precedes(key[k], key[key.len() - 1]));
            }
        }
        lemma_push_keeps_order(key, literal);
    } else {
        let head = key.drop_last();
        lemma_ordered_drop_last(key);
        lemma_place_keeps_order(head, literal);
        lemma_place_keeps_literals(head, literal);
        let placed = place(head, literal);
        assert forall|k: int| 0 <= k < placed.len() implies precedes(
            #[trigger] placed[k],
            key.last(),
        ) by {
            lemma_place_members(head, literal, k);
            if placed[k] != literal {
                let at: int = choose|at: int| 0 <= at < head.len() && head[at] == placed[k];
                assert(precedes(key[at], key[key.len() - 1]));
            }
        }
        lemma_push_keeps_order(placed, key.last());
    }
}

/// A key has as many literals as the clause it was made from.
pub proof fn lemma_normalized_len(literals: Seq<i32>)
    ensures
        normalized(literals).len() == literals.len(),
    decreases literals.len(),
{
    if literals.len() > 0 {
        lemma_normalized_len(literals.drop_last());
        lemma_place_keeps_literals(normalized(literals.drop_last()), literals.last());
    }
}

/// A key holds the literals of its clause, each as often as the clause does.
pub proof fn lemma_normalized_same_literals(literals: Seq<i32>)
    ensures
        normalized(literals).to_multiset() == literals.to_multiset(),
    decreases literals.len(),
{
    broadcast use group_to_multiset_ensures;

    if literals.len() == 0 {
        assert(normalized(literals) =~= literals);
    } else {
        lemma_normalized_same_literals(literals.drop_last());
        lemma_place_keeps_literals(normalized(literals.drop_last()), literals.last());
        assert(literals.drop_last().push(literals.last()) =~= literals);
    }
}

/// A key is in order.
pub proof fn lemma_normalized_is_ordered(literals: Seq<i32>)
    ensures
        ordered(normalized(literals)),
    decreases literals.len(),
{
    if literals.len() > 0 {
        lemma_normalized_is_ordered(literals.drop_last());
        lemma_place_keeps_order(normalized(literals.drop_last()), literals.last());
    }
}

/// A key is sorted by absolute value: no literal stands before one of
/// smaller magnitude.
pub proof fn lemma_normalized_is_sorted_by_magnitude(literals: Seq<i32>)
    ensures
        forall|i: int, j: int|
            0 <= i < j < normalized(literals).len() ==> magnitude(
                #[trigger] normalized(literals)[i] as int,
            ) <= magnitude(#[trigger] normalized(literals)[j] as int),
{
    lemma_normalized_is_ordered(literals);
    let key = normalized(literals);
    assert forall|i: int, j: int| 0 <= i < j < key.len() implies magnitude(
        #[trigger] key[i] as int,
    ) <= magnitude(#[trigger] key[j] as int) by {
        assert(precedes(key[i], key[j]));
    }
}

/// The key made of a clause is its key.
pub proof fn lemma_normalized_is_key(literals: Seq<i32>)
    ensures
        is_key_of(normalized(literals), literals),
{
    lemma_normalized_is_ordered(literals);
    lemma_normalized_same_literals(literals);
}

/// The order of a key leaves no choice: of two different literals, one
/// and only one may stand before the other.
pub proof fn lemma_key_order_is_total()
    ensures
        total_ordering(key_order()),
{
    let leq = key_order();
    assert(reflexive(leq));
    assert(antisymmetric(leq));
    assert(transitive(leq));
    assert(strongly_connected(leq));
}

/// A clause has one key only: two keys of the same clause are equal.
pub proof fn lemma_key_is_unique(x: Seq<i32>, y: Seq<i32>, literals: Seq<i32>)
    requires
        is_key_of(x, literals),
        is_key_of(y, literals),
    ensures
        x == y,
{
    let leq = key_order();
    assert forall|i: int, j: int| 0 <= i < j < x.len() implies #[trigger] leq(x[i], x[j]) by {
        assert(precedes(x[i], x[j]));
    }
    assert forall|i: int, j: int| 0 <= i < j < y.len() implies #[trigger] leq(y[i], y[j]) by {
        assert(precedes(y[i], y[j]));
    }
    lemma_key_order_is_total();
    lemma_sorted_unique(x, y, leq);
}

/// Literals that are already in order are their own key.
pub proof fn lemma_ordered_is_normalized(key: Seq<i32>)
    requires
        ordered(key),
    ensures
        normalized(key) == key,
{
    lemma_normalized_is_key(key);
    lemma_key_is_unique(normalized(key), key, key);
}

/// Making a key from a key changes nothing.
pub proof fn lemma_normalized_twice(literals: Seq<i32>)
    ensures
        normalized(normalized(literals)) == normalized(literals),
{
    lemma_normalized_is_ordered(literals);
    lemma_ordered_is_normalized(normalized(literals));
}

/// A clause has one key, in whatever order its literals are given: two
/// clauses with the same literals, each as often in one as in the other,
/// have the same key.
pub proof fn lemma_normalized_order_independent(a: Seq<i32>, b: Seq<i32>)
    requires
        a.to_multiset() == b.to_multiset(),
    ensures
        normalized(a) == normalized(b),
{
    lemma_normalized_is_key(a);
    lemma_normalized_is_key(b);
    lemma_key_is_unique(normalized(a), normalized(b), a);
}

} // verus!
