//! The CNF encoder: interns domain variables as integer SAT identifiers,
//! accumulates clauses, and supports a single-level snapshot/rewind that
//! restores the variable counter, the name table and the clause store to an
//! exact prior state.

use vstd::prelude::*;

use crate::kb::Var;
use crate::logic::{
    clause_holds, clause_in_range, cnf_holds, cnf_in_range, lit_holds, Literal, SatLiteral,
};

verus! {

/// The save point recorded by `snapshot`: the number of variables, clauses
/// and interned names at the time it was taken.  Names are only ever
/// appended, so remembering the table length is enough to undo them.
struct Snapshot {
    last_var_counter: usize,
    last_len_clauses: usize,
    last_len_table: usize,
}

/// The mathematical state of a snapshot.
#[verifier::ext_equal]
pub ghost struct SnapshotModel {
    pub counter: int,
    pub clauses_len: int,
    pub table_len: int,
}

/// The mathematical state of an encoder: the name table in allocation
/// order (name, identifier), the clause store, the highest identifier ever
/// allocated, and the optional save point.
#[verifier::ext_equal]
pub ghost struct EncoderModel {
    pub table: Seq<(Var, int)>,
    pub clauses: Seq<Seq<SatLiteral>>,
    pub counter: int,
    pub snap: Option<SnapshotModel>,
}

/// The interned names in identifier order.
pub open spec fn table_names(m: EncoderModel) -> Seq<Var> {
    m.table.map_values(|p: (Var, int)| p.0)
}

/// First identifier associated with `v` in the table, scanning from the
/// front.
pub open spec fn lookup(table: Seq<(Var, int)>, v: Var) -> Option<int>
    decreases table.len(),
{
    if table.len() == 0 {
        None
    } else if table[0].0 == v {
        Some(table[0].1)
    } else {
        lookup(table.drop_first(), v)
    }
}

/// The name table is well formed below `counter`: identifiers lie in
/// `1..=counter`, are strictly increasing along the table, and names are
/// never interned twice.
pub open spec fn table_wf(table: Seq<(Var, int)>, counter: int) -> bool {
    &&& forall|i: int| 0 <= i < table.len() ==> 1 <= (#[trigger] table[i]).1 <= counter
    &&& forall|i: int, j: int|
        0 <= i < j < table.len() ==> (#[trigger] table[i]).1 < (#[trigger] table[j]).1
    &&& forall|i: int, j: int|
        0 <= i < j < table.len() ==> (#[trigger] table[i]).0 != (#[trigger] table[j]).0
}

/// Everything recorded by the snapshot is a prefix of the current state,
/// and everything beyond it was allocated after the snapshot was taken.
pub open spec fn snap_wf(m: EncoderModel, s: SnapshotModel) -> bool {
    &&& 0 <= s.counter <= m.counter
    &&& 0 <= s.clauses_len <= m.clauses.len()
    &&& 0 <= s.table_len <= m.table.len()
    &&& cnf_in_range(m.clauses.take(s.clauses_len), s.counter)
    &&& forall|i: int| 0 <= i < s.table_len ==> (#[trigger] m.table[i]).1 <= s.counter
    &&& forall|i: int|
        s.table_len <= i < m.table.len() ==> (#[trigger] m.table[i]).1 > s.counter
}

/// The encoder's invariant.
pub open spec fn wf(m: EncoderModel) -> bool {
    &&& 0 <= m.counter <= usize::MAX
    &&& table_wf(m.table, m.counter)
    &&& cnf_in_range(m.clauses, m.counter)
    &&& match m.snap {
        Some(s) => snap_wf(m, s),
        None => true,
    }
}

/// Effect of interning one variable: an already-known name keeps its
/// identifier; a new name is bound to `counter + 1`.
pub open spec fn intern_var_m(m: EncoderModel, v: Var) -> (EncoderModel, int) {
    match lookup(m.table, v) {
        Some(id) => (m, id),
        None => (
            EncoderModel {
                table: m.table.push((v, m.counter + 1)),
                counter: m.counter + 1,
                ..m
            },
            m.counter + 1,
        ),
    }
}

/// The integer literal carrying `id` with the polarity of `l`.
pub open spec fn lit_with_id(l: Literal<Var>, id: int) -> SatLiteral {
    if l.is_pos() {
        Literal::Pos(id as usize)
    } else {
        Literal::Neg(id as usize)
    }
}

/// Effect of interning a clause, literal by literal, left to right.
pub open spec fn intern_clause_m(m: EncoderModel, c: Seq<Literal<Var>>) -> (
    EncoderModel,
    Seq<SatLiteral>,
)
    decreases c.len(),
{
    if c.len() == 0 {
        (m, Seq::empty())
    } else {
        let (m1, ls) = intern_clause_m(m, c.drop_last());
        let (m2, id) = intern_var_m(m1, c.last().spec_inner());
        (m2, ls.push(lit_with_id(c.last(), id)))
    }
}

/// Effect of `add`: intern the clause, then append it to the store.
pub open spec fn add_m(m: EncoderModel, c: Seq<Literal<Var>>) -> EncoderModel {
    let (m1, lc) = intern_clause_m(m, c);
    EncoderModel { clauses: m1.clauses.push(lc), ..m1 }
}

/// Effect of `tell`: add every clause of the formula, in order.
pub open spec fn tell_m(m: EncoderModel, f: Seq<Seq<Literal<Var>>>) -> EncoderModel
    decreases f.len(),
{
    if f.len() == 0 {
        m
    } else {
        add_m(tell_m(m, f.drop_last()), f.last())
    }
}

/// Effect of interning a whole formula, clause by clause.
pub open spec fn intern_formula_m(m: EncoderModel, f: Seq<Seq<Literal<Var>>>) -> (
    EncoderModel,
    Seq<Seq<SatLiteral>>,
)
    decreases f.len(),
{
    if f.len() == 0 {
        (m, Seq::empty())
    } else {
        let (m1, qs) = intern_formula_m(m, f.drop_last());
        let (m2, q) = intern_clause_m(m1, f.last());
        (m2, qs.push(q))
    }
}

/// Total number of literals of a formula; bounds how many identifiers
/// interning it can allocate.
pub open spec fn formula_size(f: Seq<Seq<Literal<Var>>>) -> nat
    decreases f.len(),
{
    if f.len() == 0 {
        0
    } else {
        formula_size(f.drop_last()) + f.last().len()
    }
}

/// A prefix of a formula is no larger than the formula.
pub proof fn lemma_formula_size_take(f: Seq<Seq<Literal<Var>>>, i: int)
    requires
        0 <= i <= f.len(),
    ensures
        formula_size(f.take(i)) <= formula_size(f),
    decreases f.len(),
{
    if i == f.len() {
        assert(f.take(i) =~= f);
    } else if f.len() > 0 {
        assert(f.drop_last().take(i) =~= f.take(i));
        lemma_formula_size_take(f.drop_last(), i);
    }
}

/// Interning ignores the snapshot slot: two models equal up to it intern
/// a clause to the same literals, and evolve the same way.
pub proof fn lemma_intern_clause_congruent(m1: EncoderModel, m2: EncoderModel, c: Seq<Literal<Var>>)
    requires
        m1.table == m2.table,
        m1.counter == m2.counter,
    ensures
        intern_clause_m(m1, c).1 == intern_clause_m(m2, c).1,
        intern_clause_m(m1, c).0.table == intern_clause_m(m2, c).0.table,
        intern_clause_m(m1, c).0.counter == intern_clause_m(m2, c).0.counter,
        intern_clause_m(m1, c).0.clauses == m1.clauses,
        intern_clause_m(m1, c).0.snap == m1.snap,
        intern_clause_m(m2, c).0.clauses == m2.clauses,
        intern_clause_m(m2, c).0.snap == m2.snap,
    decreases c.len(),
{
    if c.len() > 0 {
        lemma_intern_clause_congruent(m1, m2, c.drop_last());
    }
}

/// Interning a formula ignores the snapshot slot in the same way.
pub proof fn lemma_intern_formula_congruent(
    m1: EncoderModel,
    m2: EncoderModel,
    f: Seq<Seq<Literal<Var>>>,
)
    requires
        m1.table == m2.table,
        m1.counter == m2.counter,
    ensures
        intern_formula_m(m1, f).1 == intern_formula_m(m2, f).1,
        intern_formula_m(m1, f).0.table == intern_formula_m(m2, f).0.table,
        intern_formula_m(m1, f).0.counter == intern_formula_m(m2, f).0.counter,
        intern_formula_m(m1, f).0.clauses == m1.clauses,
        intern_formula_m(m1, f).0.snap == m1.snap,
        intern_formula_m(m2, f).0.clauses == m2.clauses,
        intern_formula_m(m2, f).0.snap == m2.snap,
    decreases f.len(),
{
    if f.len() > 0 {
        lemma_intern_formula_congruent(m1, m2, f.drop_last());
        lemma_intern_clause_congruent(
            intern_formula_m(m1, f.drop_last()).0,
            intern_formula_m(m2, f.drop_last()).0,
            f.last(),
        );
    }
}

/// Interning a clause only appends to the name table.
pub proof fn lemma_intern_clause_extends(m: EncoderModel, c: Seq<Literal<Var>>)
    ensures
        m.table.len() <= intern_clause_m(m, c).0.table.len(),
        forall|i: int|
            0 <= i < m.table.len() ==> #[trigger] intern_clause_m(m, c).0.table[i] == m.table[i],
    decreases c.len(),
{
    if c.len() > 0 {
        lemma_intern_clause_extends(m, c.drop_last());
    }
}

/// Interning a formula only appends to the name table.
pub proof fn lemma_intern_formula_extends(m: EncoderModel, f: Seq<Seq<Literal<Var>>>)
    ensures
        m.table.len() <= intern_formula_m(m, f).0.table.len(),
        forall|i: int|
            0 <= i < m.table.len() ==> #[trigger] intern_formula_m(m, f).0.table[i] == m.table[i],
    decreases f.len(),
{
    if f.len() > 0 {
        lemma_intern_formula_extends(m, f.drop_last());
        let m1 = intern_formula_m(m, f.drop_last()).0;
        lemma_intern_clause_extends(m1, f.last());
    }
}

/// Telling a formula only appends: the snapshot slot is untouched, table
/// and clause store keep their existing entries, the counter never drops.
pub proof fn lemma_tell_extends(m: EncoderModel, f: Seq<Seq<Literal<Var>>>)
    ensures
        tell_m(m, f).snap == m.snap,
        m.table.len() <= tell_m(m, f).table.len(),
        forall|i: int| 0 <= i < m.table.len() ==> #[trigger] tell_m(m, f).table[i] == m.table[i],
        m.clauses.len() <= tell_m(m, f).clauses.len(),
        forall|i: int|
            0 <= i < m.clauses.len() ==> #[trigger] tell_m(m, f).clauses[i] == m.clauses[i],
        m.counter <= tell_m(m, f).counter,
    decreases f.len(),
{
    if f.len() > 0 {
        lemma_tell_extends(m, f.drop_last());
        let m1 = tell_m(m, f.drop_last());
        lemma_intern_clause_extends(m1, f.last());
        lemma_intern_clause_congruent(m1, m1, f.last());
        lemma_intern_clause_counter(m1, f.last());
    }
}

/// Interning a clause raises the counter by at most one per literal.
pub proof fn lemma_intern_clause_counter(m: EncoderModel, c: Seq<Literal<Var>>)
    ensures
        m.counter <= intern_clause_m(m, c).0.counter <= m.counter + c.len(),
    decreases c.len(),
{
    if c.len() > 0 {
        lemma_intern_clause_counter(m, c.drop_last());
    }
}

/// Rewind reversibility: taking a snapshot, telling any formula, and
/// rewinding restores the encoder's state exactly — same counter, same
/// clause store, same name table — so its DIMACS output and name table
/// are bit-identical to what they were.
pub proof fn lemma_rewind_reversibility(m: EncoderModel, f: Seq<Seq<Literal<Var>>>)
    requires
        wf(m),
        m.snap is None,
    ensures
        rewind_m(tell_m(snapshot_m(m), f)) == m,
{
    let ms = snapshot_m(m);
    let mt = tell_m(ms, f);
    lemma_tell_extends(ms, f);
    assert(rewind_m(mt).table =~= m.table);
    assert(rewind_m(mt).clauses =~= m.clauses);
    assert(rewind_m(mt) =~= m);
}

/// Appending a binding for a missing name makes `lookup` find it.
pub proof fn lemma_lookup_push_self(table: Seq<(Var, int)>, v: Var, id: int)
    requires
        lookup(table, v) is None,
    ensures
        lookup(table.push((v, id)), v) == Some(id),
    decreases table.len(),
{
    if table.len() > 0 {
        assert(table.push((v, id)).drop_first() =~= table.drop_first().push((v, id)));
        lemma_lookup_push_self(table.drop_first(), v, id);
    }
}

/// Monotonic intern, first half: interning the same name twice gives the
/// same identifier, and the second intern does not change the state.
pub proof fn lemma_intern_idempotent(m: EncoderModel, v: Var)
    ensures
        intern_var_m(intern_var_m(m, v).0, v) == intern_var_m(m, v),
{
    let (m1, id) = intern_var_m(m, v);
    if lookup(m.table, v) is None {
        lemma_lookup_push_self(m.table, v, m.counter + 1);
    }
}

/// Effect of interning a sequence of names, one after the other.
pub open spec fn intern_vars_m(m: EncoderModel, vs: Seq<Var>) -> EncoderModel
    decreases vs.len(),
{
    if vs.len() == 0 {
        m
    } else {
        intern_var_m(intern_vars_m(m, vs.drop_last()), vs.last()).0
    }
}

/// Monotonic intern, second half: interning `N` distinct names into a
/// fresh encoder binds them to the identifiers `1..=N` in first-seen
/// order.
pub proof fn lemma_intern_fresh_ids(vs: Seq<Var>)
    requires
        forall|i: int, j: int| 0 <= i < j < vs.len() ==> vs[i] != vs[j],
    ensures
        ({
            let m0 = EncoderModel {
                table: Seq::empty(),
                clauses: Seq::empty(),
                counter: 0,
                snap: None,
            };
            let mn = intern_vars_m(m0, vs);
            mn.table == Seq::new(vs.len(), |i: int| (vs[i], i + 1)) && mn.counter == vs.len()
        }),
    decreases vs.len(),
{
    let m0 = EncoderModel { table: Seq::empty(), clauses: Seq::empty(), counter: 0, snap: None };
    if vs.len() == 0 {
        assert(intern_vars_m(m0, vs).table =~= Seq::new(vs.len(), |i: int| (vs[i], i + 1)));
    } else {
        lemma_intern_fresh_ids(vs.drop_last());
        let m1 = intern_vars_m(m0, vs.drop_last());
        assert(m1.table == Seq::new((vs.len() - 1) as nat, |i: int| (vs.drop_last()[i], i + 1)));
        assert forall|j: int| 0 <= j < m1.table.len() implies (#[trigger] m1.table[j]).0
            != vs.last() by {
            assert(m1.table[j].0 == vs[j]);
        }
        lemma_lookup_none(m1.table, vs.last());
        assert(intern_vars_m(m0, vs).table =~= Seq::new(vs.len(), |i: int| (vs[i], i + 1)));
    }
}

/// Effect of `snapshot`.
pub open spec fn snapshot_m(m: EncoderModel) -> EncoderModel {
    EncoderModel {
        snap: Some(
            SnapshotModel {
                counter: m.counter,
                clauses_len: m.clauses.len() as int,
                table_len: m.table.len() as int,
            },
        ),
        ..m
    }
}

/// Effect of `rewind` when a snapshot `s` is present.
pub open spec fn rewind_m(m: EncoderModel) -> EncoderModel
    recommends
        m.snap is Some,
{
    let s = m.snap->Some_0;
    EncoderModel {
        table: m.table.take(s.table_len),
        clauses: m.clauses.take(s.clauses_len),
        counter: s.counter,
        snap: None,
    }
}

/// A looked-up identifier was placed in the table by an intern, so it lies
/// in `1..=counter`.
pub proof fn lemma_lookup_in_range(table: Seq<(Var, int)>, counter: int, v: Var)
    requires
        table_wf(table, counter),
        lookup(table, v) is Some,
    ensures
        1 <= lookup(table, v)->Some_0 <= counter,
    decreases table.len(),
{
    if table.len() > 0 && table[0].0 != v {
        assert(forall|i: int|
            0 <= i < table.drop_first().len() ==> #[trigger] table.drop_first()[i] == table[i + 1]);
        lemma_lookup_in_range(table.drop_first(), counter, v);
    }
}

/// When a prefix scan finds `v` first at index `i`, `lookup` returns that
/// entry's identifier.
pub proof fn lemma_lookup_found(table: Seq<(Var, int)>, v: Var, i: int)
    requires
        0 <= i < table.len(),
        table[i].0 == v,
        forall|j: int| 0 <= j < i ==> (#[trigger] table[j]).0 != v,
    ensures
        lookup(table, v) == Some(table[i].1),
    decreases i,
{
    if i > 0 {
        assert(forall|k: int|
            0 <= k < table.drop_first().len() ==> #[trigger] table.drop_first()[k] == table[k + 1]);
        lemma_lookup_found(table.drop_first(), v, i - 1);
    }
}

/// When no entry carries `v`, `lookup` misses.
pub proof fn lemma_lookup_none(table: Seq<(Var, int)>, v: Var)
    requires
        forall|j: int| 0 <= j < table.len() ==> (#[trigger] table[j]).0 != v,
    ensures
        lookup(table, v) is None,
    decreases table.len(),
{
    if table.len() > 0 {
        assert(forall|k: int|
            0 <= k < table.drop_first().len() ==> #[trigger] table.drop_first()[k] == table[k + 1]);
        lemma_lookup_none(table.drop_first(), v);
    }
}

/// When `lookup` misses, no entry carries `v`.
pub proof fn lemma_lookup_miss(table: Seq<(Var, int)>, v: Var)
    requires
        lookup(table, v) is None,
    ensures
        forall|j: int| 0 <= j < table.len() ==> (#[trigger] table[j]).0 != v,
    decreases table.len(),
{
    if table.len() > 0 {
        assert(forall|k: int|
            0 <= k < table.drop_first().len() ==> #[trigger] table.drop_first()[k] == table[k + 1]);
        lemma_lookup_miss(table.drop_first(), v);
        assert forall|j: int| 0 <= j < table.len() implies (#[trigger] table[j]).0 != v by {
            if j > 0 {
                assert(table.drop_first()[j - 1] == table[j]);
            }
        }
    }
}

/// Telling allocates at most one identifier per told literal.
pub proof fn lemma_tell_counter(m: EncoderModel, f: Seq<Seq<Literal<Var>>>)
    ensures
        tell_m(m, f).counter <= m.counter + formula_size(f),
    decreases f.len(),
{
    if f.len() > 0 {
        lemma_tell_counter(m, f.drop_last());
        lemma_intern_clause_counter(tell_m(m, f.drop_last()), f.last());
    }
}

/// Truth of a domain literal under a valuation of the domain variables.
pub open spec fn vlit_holds(val: spec_fn(Var) -> bool, l: Literal<Var>) -> bool {
    match l {
        Literal::Pos(v) => val(v),
        Literal::Neg(v) => !val(v),
    }
}

/// Truth of a domain clause: some literal is true.
pub open spec fn vclause_holds(val: spec_fn(Var) -> bool, c: Seq<Literal<Var>>) -> bool {
    exists|j: int| 0 <= j < c.len() && vlit_holds(val, #[trigger] c[j])
}

/// Truth of a domain formula: every clause is true.
pub open spec fn vformula_holds(val: spec_fn(Var) -> bool, f: Seq<Seq<Literal<Var>>>) -> bool {
    forall|i: int| 0 <= i < f.len() ==> vclause_holds(val, #[trigger] f[i])
}

/// An assignment realises a valuation through the name table: every
/// interned identifier carries the truth value of its name.
pub open spec fn agrees(a: Seq<bool>, table: Seq<(Var, int)>, val: spec_fn(Var) -> bool) -> bool {
    forall|i: int| 0 <= i < table.len() ==> a[(#[trigger] table[i]).1 - 1] == val(table[i].0)
}

/// A found identifier sits in some table entry.
proof fn lemma_lookup_found_entry(table: Seq<(Var, int)>, v: Var)
    requires
        lookup(table, v) is Some,
    ensures
        exists|i: int|
            0 <= i < table.len() && #[trigger] table[i] == (v, lookup(table, v)->Some_0),
    decreases table.len(),
{
    if table.len() > 0 {
        if table[0].0 == v {
            assert(table[0] == (v, lookup(table, v)->Some_0));
        } else {
            lemma_lookup_found_entry(table.drop_first(), v);
            let i = choose|i: int|
                0 <= i < table.drop_first().len() && #[trigger] table.drop_first()[i] == (
                    v,
                    lookup(table.drop_first(), v)->Some_0,
                );
            assert(table[i + 1] == (v, lookup(table, v)->Some_0));
        }
    }
}

/// Interning one name keeps a realising assignment realising: the old
/// values stay, and a fresh identifier receives its name's truth value.
proof fn lemma_intern_var_model(
    m: EncoderModel,
    v: Var,
    val: spec_fn(Var) -> bool,
    a: Seq<bool>,
) -> (b: Seq<bool>)
    requires
        table_wf(m.table, m.counter),
        0 <= m.counter,
        m.counter + 1 <= usize::MAX,
        a.len() == m.counter,
        agrees(a, m.table, val),
    ensures
        ({
            let (m1, id) = intern_var_m(m, v);
            &&& b.len() == m1.counter
            &&& b.subrange(0, a.len() as int) == a
            &&& agrees(b, m1.table, val)
            &&& table_wf(m1.table, m1.counter)
            &&& 1 <= id <= m1.counter
            &&& b[id - 1] == val(v)
        }),
{
    let (m1, id) = intern_var_m(m, v);
    match lookup(m.table, v) {
        Some(_) => {
            lemma_lookup_in_range(m.table, m.counter, v);
            lemma_lookup_found_entry(m.table, v);
            assert(a.subrange(0, a.len() as int) =~= a);
            a
        },
        None => {
            let b = a.push(val(v));
            lemma_lookup_miss(m.table, v);
            assert(b.subrange(0, a.len() as int) =~= a);
            assert(agrees(b, m1.table, val)) by {
                assert forall|i: int| 0 <= i < m1.table.len() implies b[(#[trigger] m1.table[i]).1
                    - 1] == val(m1.table[i].0) by {
                    if i < m.table.len() {
                        assert(m1.table[i] == m.table[i]);
                        assert(b[m.table[i].1 - 1] == a[m.table[i].1 - 1]);
                    } else {
                        assert(m1.table[i] == (v, m.counter + 1));
                    }
                }
            }
            b
        },
    }
}

/// Interning a clause keeps a realising assignment realising, and the
/// interned literals take exactly the truth values of their names.
proof fn lemma_intern_clause_model(
    m: EncoderModel,
    c: Seq<Literal<Var>>,
    val: spec_fn(Var) -> bool,
    a: Seq<bool>,
) -> (b: Seq<bool>)
    requires
        table_wf(m.table, m.counter),
        0 <= m.counter,
        m.counter + c.len() <= usize::MAX,
        a.len() == m.counter,
        agrees(a, m.table, val),
    ensures
        ({
            let (m1, q) = intern_clause_m(m, c);
            &&& b.len() == m1.counter
            &&& b.subrange(0, a.len() as int) == a
            &&& agrees(b, m1.table, val)
            &&& table_wf(m1.table, m1.counter)
            &&& clause_in_range(q, m1.counter)
            &&& q.len() == c.len()
            &&& forall|j: int|
                0 <= j < c.len() ==> lit_holds(b, #[trigger] q[j]) == vlit_holds(val, c[j])
        }),
    decreases c.len(),
{
    let (m1, q) = intern_clause_m(m, c);
    if c.len() == 0 {
        assert(a.subrange(0, a.len() as int) =~= a);
        a
    } else {
        let (ma, ls) = intern_clause_m(m, c.drop_last());
        lemma_intern_clause_counter(m, c.drop_last());
        let b0 = lemma_intern_clause_model(m, c.drop_last(), val, a);
        let (mb, id) = intern_var_m(ma, c.last().spec_inner());
        let b = lemma_intern_var_model(ma, c.last().spec_inner(), val, b0);
        assert(m1 == mb);
        assert(q == ls.push(lit_with_id(c.last(), id)));
        assert(b.subrange(0, a.len() as int) =~= a) by {
            assert(b.subrange(0, b0.len() as int) == b0);
            assert forall|i: int| 0 <= i < a.len() implies b.subrange(0, a.len() as int)[i]
                == a[i] by {
                assert(b.subrange(0, b0.len() as int)[i] == b[i]);
                assert(b0.subrange(0, a.len() as int)[i] == b0[i]);
            }
        }
        assert forall|j: int| 0 <= j < c.len() implies lit_holds(b, #[trigger] q[j]) == vlit_holds(
            val,
            c[j],
        ) by {
            if j < c.len() - 1 {
                assert(q[j] == ls[j]);
                assert(c.drop_last()[j] == c[j]);
                assert(lit_holds(b0, ls[j]) == vlit_holds(val, c.drop_last()[j]));
                let w = ls[j].spec_inner();
                assert(1 <= w <= ma.counter);
                assert(ma.counter <= usize::MAX);
                assert(b.subrange(0, b0.len() as int)[w - 1] == b[w - 1]);
            } else {
                assert(q[j] == lit_with_id(c.last(), id));
                assert(1 <= id <= mb.counter);
                assert(mb.counter <= usize::MAX);
                assert(b[id - 1] == val(c.last().spec_inner()));
            }
        }
        b
    }
}

/// Telling a whole formula that a valuation satisfies keeps the store
/// satisfied: the realising assignment extends to the new identifiers
/// and satisfies every old and new clause.
pub proof fn lemma_tell_model(
    m: EncoderModel,
    f: Seq<Seq<Literal<Var>>>,
    val: spec_fn(Var) -> bool,
    a: Seq<bool>,
) -> (b: Seq<bool>)
    requires
        table_wf(m.table, m.counter),
        0 <= m.counter,
        m.counter + formula_size(f) <= usize::MAX,
        cnf_in_range(m.clauses, m.counter),
        a.len() == m.counter,
        cnf_holds(a, m.clauses),
        agrees(a, m.table, val),
        vformula_holds(val, f),
    ensures
        ({
            let mt = tell_m(m, f);
            &&& b.len() == mt.counter
            &&& cnf_holds(b, mt.clauses)
            &&& agrees(b, mt.table, val)
            &&& table_wf(mt.table, mt.counter)
            &&& cnf_in_range(mt.clauses, mt.counter)
        }),
    decreases f.len(),
{
    if f.len() == 0 {
        a
    } else {
        assert(vformula_holds(val, f.drop_last())) by {
            assert forall|i: int| 0 <= i < f.drop_last().len() implies vclause_holds(
                val,
                #[trigger] f.drop_last()[i],
            ) by {
                assert(f.drop_last()[i] == f[i]);
            }
        }
        lemma_tell_counter(m, f.drop_last());
        let b0 = lemma_tell_model(m, f.drop_last(), val, a);
        let m1 = tell_m(m, f.drop_last());
        let (m2, q) = intern_clause_m(m1, f.last());
        let b = lemma_intern_clause_model(m1, f.last(), val, b0);
        lemma_intern_clause_congruent(m1, m1, f.last());
        lemma_intern_clause_counter(m1, f.last());
        let mt = tell_m(m, f);
        assert(mt == (EncoderModel { clauses: m2.clauses.push(q), ..m2 }));
        assert(cnf_holds(b, m1.clauses)) by {
            crate::logic::lemma_cnf_holds_extend(b0, b, m1.clauses);
        }
        assert(clause_holds(b, q)) by {
            assert(vclause_holds(val, f.last())) by {
                assert(f[f.len() - 1] == f.last());
            }
            let j = choose|j: int| 0 <= j < f.last().len() && vlit_holds(val, #[trigger] f.last()[j]);
            assert(lit_holds(b, q[j]));
        }
        assert(cnf_holds(b, mt.clauses)) by {
            assert forall|i: int| 0 <= i < mt.clauses.len() implies clause_holds(
                b,
                #[trigger] mt.clauses[i],
            ) by {
                if i < m1.clauses.len() {
                    assert(mt.clauses[i] == m1.clauses[i]);
                } else {
                    assert(mt.clauses[i] == q);
                }
            }
        }
        assert(cnf_in_range(mt.clauses, mt.counter)) by {
            assert forall|i: int| 0 <= i < mt.clauses.len() implies clause_in_range(
                #[trigger] mt.clauses[i],
                mt.counter,
            ) by {
                if i < m1.clauses.len() {
                    assert(mt.clauses[i] == m1.clauses[i]);
                    assert(clause_in_range(m1.clauses[i], m1.counter));
                } else {
                    assert(mt.clauses[i] == q);
                }
            }
        }
        b
    }
}

/// Pair each named variable with its truth value in a model, skipping
/// the first name, as the reference model decoder does: entry `i` of the
/// result couples name `i + 1` with model entry `i + 1` (absent entries
/// are unknown).
pub fn decode_model(vars: &Vec<Var>, model: &Vec<Option<bool>>) -> (r: Vec<(Var, Option<bool>)>)
    ensures
        r@.len() == if vars@.len() == 0 {
            0int
        } else {
            vars@.len() - 1
        },
        forall|i: int|
            0 <= i < r@.len() ==> #[trigger] r@[i] == (
                vars@[i + 1],
                if i + 1 < model@.len() {
                    model@[i + 1]
                } else {
                    None::<bool>
                },
            ),
{
    let mut r: Vec<(Var, Option<bool>)> = Vec::new();
    if vars.len() == 0 {
        return r;
    }
    let mut i: usize = 1;
    while i < vars.len()
        invariant
            1 <= i <= vars@.len(),
            r@.len() == i - 1,
            forall|t: int|
                0 <= t < r@.len() ==> #[trigger] r@[t] == (
                    vars@[t + 1],
                    if t + 1 < model@.len() {
                        model@[t + 1]
                    } else {
                        None::<bool>
                    },
                ),
        decreases vars@.len() - i,
    {
        let value: Option<bool> = if i < model.len() {
            model[i]
        } else {
            None
        };
        r.push((vars[i], value));
        i += 1;
    }
    r
}

/// The CNF encoder.
pub struct EncoderSAT {
    table: Vec<(Var, usize)>,
    clauses: Vec<Vec<SatLiteral>>,
    counter: usize,
    snapshot: Option<Snapshot>,
}

impl View for EncoderSAT {
    type V = EncoderModel;

    closed spec fn view(&self) -> EncoderModel {
        EncoderModel {
            table: self.table@.map_values(|p: (Var, usize)| (p.0, p.1 as int)),
            clauses: self.clauses@.map_values(|c: Vec<SatLiteral>| c@),
            counter: self.counter as int,
            snap: match self.snapshot {
                Some(s) => Some(
                    SnapshotModel {
                        counter: s.last_var_counter as int,
                        clauses_len: s.last_len_clauses as int,
                        table_len: s.last_len_table as int,
                    },
                ),
                None => None,
            },
        }
    }
}

impl EncoderSAT {
    /// A fresh encoder: no names, no clauses, no snapshot.
    pub fn new() -> (r: Self)
        ensures
            r@ == (EncoderModel {
                table: Seq::empty(),
                clauses: Seq::empty(),
                counter: 0,
                snap: None,
            }),
            wf(r@),
    {
        let r = EncoderSAT { table: Vec::new(), clauses: Vec::new(), counter: 0, snapshot: None };
        proof {
            assert(r@.table =~= Seq::<(Var, int)>::empty());
            assert(r@.clauses =~= Seq::<Seq<SatLiteral>>::empty());
        }
        r
    }

    /// The number of variables allocated so far.
    pub fn num_vars(&self) -> (r: usize)
        ensures
            r as int == self@.counter,
    {
        self.counter
    }

    /// The clause store, for handing to a SAT oracle.
    pub fn clause_list(&self) -> (r: &Vec<Vec<SatLiteral>>)
        ensures
            r@.map_values(|c: Vec<SatLiteral>| c@) == self@.clauses,
    {
        &self.clauses
    }

    /// Allocate a fresh positive identifier with no associated name; used
    /// for the auxiliary variables of the refutation query.
    pub fn create_raw_variable(&mut self) -> (r: SatLiteral)
        requires
            wf(old(self)@),
            old(self)@.counter < usize::MAX,
        ensures
            wf(final(self)@),
            final(self)@ == (EncoderModel { counter: old(self)@.counter + 1, ..old(self)@ }),
            r == Literal::<usize>::Pos((old(self)@.counter + 1) as usize),
    {
        self.counter = self.counter + 1;
        Literal::Pos(self.counter)
    }

    /// Append a clause of integer literals directly, without interning.
    pub fn add_raw_clause(&mut self, raw_clause: Vec<SatLiteral>)
        requires
            wf(old(self)@),
            crate::logic::clause_in_range(raw_clause@, old(self)@.counter),
        ensures
            wf(final(self)@),
            final(self)@ == (EncoderModel {
                clauses: old(self)@.clauses.push(raw_clause@),
                ..old(self)@
            }),
    {
        let ghost old_m = self@;
        self.clauses.push(raw_clause);
        proof {
            assert(self@.clauses =~= old_m.clauses.push(raw_clause@));
            assert(self@ =~= (EncoderModel { clauses: old_m.clauses.push(raw_clause@), ..old_m }));
            if old_m.snap is Some {
                let s = old_m.snap->Some_0;
                assert(self@.clauses.take(s.clauses_len) =~= old_m.clauses.take(s.clauses_len));
            }
        }
    }

    /// Record the save point.  May be called only when no snapshot exists.
    pub fn snapshot(&mut self)
        requires
            wf(old(self)@),
            old(self)@.snap is None,
        ensures
            wf(final(self)@),
            final(self)@ == snapshot_m(old(self)@),
    {
        let ghost old_m = self@;
        self.snapshot = Some(
            Snapshot {
                last_var_counter: self.counter,
                last_len_clauses: self.clauses.len(),
                last_len_table: self.table.len(),
            },
        );
        proof {
            assert(self@ =~= snapshot_m(old_m));
            assert(self@.clauses.take(self@.clauses.len() as int) =~= self@.clauses);
        }
    }

    /// Restore the state recorded by the snapshot and clear it.  May be
    /// called only when a snapshot exists.
    pub fn rewind(&mut self)
        requires
            wf(old(self)@),
            old(self)@.snap is Some,
        ensures
            wf(final(self)@),
            final(self)@ == rewind_m(old(self)@),
    {
        let ghost old_m = self@;
        let (c, lc, lt) = match &self.snapshot {
            Some(s) => (s.last_var_counter, s.last_len_clauses, s.last_len_table),
            None => {
                proof {
                    assert(false);
                }
                (0, 0, 0)
            },
        };
        self.counter = c;
        self.clauses.truncate(lc);
        self.table.truncate(lt);
        self.snapshot = None;
        proof {
            let s = old_m.snap->Some_0;
            assert(self@.clauses =~= old_m.clauses.take(s.clauses_len));
            assert(self@.table =~= old_m.table.take(s.table_len));
            assert(self@ =~= rewind_m(old_m));
        }
    }

    /// Emit the DIMACS text of the current store, together with the
    /// id-to-name table as a sequence indexed by `id - 1` (nameless
    /// auxiliary identifiers are skipped).
    pub fn encode(&self) -> (r: (String, Vec<Var>))
        requires
            wf(self@),
        ensures
            r.0@ == crate::dimacs::dimacs_chars(self@.counter as nat, self@.clauses),
            r.1@ == table_names(self@),
    {
        let mut names: Vec<Var> = Vec::new();
        let mut i: usize = 0;
        while i < self.table.len()
            invariant
                i <= self.table@.len(),
                names@ == table_names(self@).take(i as int),
            decreases self.table@.len() - i,
        {
            names.push(self.table[i].0);
            proof {
                assert(table_names(self@).take(i + 1) =~= table_names(self@).take(i as int).push(
                    table_names(self@)[i as int],
                ));
            }
            i += 1;
        }
        proof {
            assert(table_names(self@).take(table_names(self@).len() as int) =~= table_names(
                self@,
            ));
        }
        let mut s = String::new();
        proof {
            reveal_strlit("p cnf ");
            assert("p cnf "@ =~= seq!['p', ' ', 'c', 'n', 'f', ' ']);
        }
        s.append("p cnf ");
        crate::dimacs::push_dec(&mut s, self.counter);
        proof {
            reveal_strlit(" ");
        }
        s.append(" ");
        crate::dimacs::push_dec(&mut s, self.clauses.len());
        proof {
            reveal_strlit("\n");
        }
        s.append("\n");
        let ghost header = seq!['p', ' ', 'c', 'n', 'f', ' '] + crate::dimacs::dec_rep(
            self@.counter as nat,
        ) + seq![' '] + crate::dimacs::dec_rep(self@.clauses.len()) + seq!['\n'];
        proof {
            assert(s@ =~= header);
        }
        let mut j: usize = 0;
        while j < self.clauses.len()
            invariant
                j <= self.clauses@.len(),
                wf(self@),
                header == seq!['p', ' ', 'c', 'n', 'f', ' '] + crate::dimacs::dec_rep(
                    self@.counter as nat,
                ) + seq![' '] + crate::dimacs::dec_rep(self@.clauses.len()) + seq!['\n'],
                s@ == header + crate::dimacs::clauses_chars(self@.clauses, j as int),
            decreases self.clauses@.len() - j,
        {
            proof {
                assert(self.clauses@[j as int]@ == self@.clauses[j as int]);
            }
            crate::dimacs::push_clause(&mut s, &self.clauses[j]);
            proof {
                assert(s@ =~= header + crate::dimacs::clauses_chars(self@.clauses, j + 1));
            }
            j += 1;
        }
        proof {
            assert(s@ =~= crate::dimacs::dimacs_chars(self@.counter as nat, self@.clauses));
        }
        (s, names)
    }

    /// Index of `v` in the name table, by linear scan.
    fn lookup_id(&self, v: Var) -> (r: Option<usize>)
        ensures
            match r {
                Some(id) => lookup(self@.table, v) == Some(id as int),
                None => lookup(self@.table, v) is None,
            },
    {
        let mut i: usize = 0;
        while i < self.table.len()
            invariant
                i <= self.table@.len(),
                forall|j: int| 0 <= j < i ==> (#[trigger] self@.table[j]).0 != v,
            decreases self.table@.len() - i,
        {
            if self.table[i].0 == v {
                proof {
                    lemma_lookup_found(self@.table, v, i as int);
                }
                return Some(self.table[i].1);
            }
            i += 1;
        }
        proof {
            lemma_lookup_none(self@.table, v);
        }
        None
    }

    /// Intern one literal: keep the identifier of a known name, bind a new
    /// name to the next fresh identifier.  Polarity is preserved.
    pub fn register_literal(&mut self, literal: Literal<Var>) -> (r: SatLiteral)
        requires
            wf(old(self)@),
            old(self)@.counter < usize::MAX,
        ensures
            wf(final(self)@),
            final(self)@ == intern_var_m(old(self)@, literal.spec_inner()).0,
            r == lit_with_id(literal, intern_var_m(old(self)@, literal.spec_inner()).1),
            1 <= r.spec_inner() <= final(self)@.counter,
            old(self)@.counter <= final(self)@.counter <= old(self)@.counter + 1,
            final(self)@.snap == old(self)@.snap,
            final(self)@.clauses == old(self)@.clauses,
    {
        let ghost old_m = self@;
        let v = literal.inner();
        match self.lookup_id(v) {
            Some(id) => {
                proof {
                    lemma_lookup_in_range(old_m.table, old_m.counter, v);
                }
                match literal {
                    Literal::Pos(_) => Literal::Pos(id),
                    Literal::Neg(_) => Literal::Neg(id),
                }
            },
            None => {
                let id = self.counter + 1;
                self.counter = id;
                self.table.push((v, id));
                proof {
                    lemma_lookup_miss(old_m.table, v);
                    assert(self@.table =~= old_m.table.push((v, old_m.counter + 1)));
                    assert(self@ =~= intern_var_m(old_m, v).0);
                    if old_m.snap is Some {
                        let s = old_m.snap->Some_0;
                        assert(self@.clauses.take(s.clauses_len) =~= old_m.clauses.take(
                            s.clauses_len,
                        ));
                    }
                }
                match literal {
                    Literal::Pos(_) => Literal::Pos(id),
                    Literal::Neg(_) => Literal::Neg(id),
                }
            },
        }
    }

    /// Intern a whole clause, left to right.
    pub fn register_clause(&mut self, clause: &Vec<Literal<Var>>) -> (r: Vec<SatLiteral>)
        requires
            wf(old(self)@),
            old(self)@.counter + clause@.len() <= usize::MAX,
        ensures
            wf(final(self)@),
            final(self)@ == intern_clause_m(old(self)@, clause@).0,
            r@ == intern_clause_m(old(self)@, clause@).1,
            crate::logic::clause_in_range(r@, final(self)@.counter),
            old(self)@.counter <= final(self)@.counter <= old(self)@.counter + clause@.len(),
            final(self)@.snap == old(self)@.snap,
            final(self)@.clauses == old(self)@.clauses,
    {
        let ghost old_m = self@;
        let mut out: Vec<SatLiteral> = Vec::new();
        let mut i: usize = 0;
        proof {
            assert(clause@.take(0) =~= Seq::<Literal<Var>>::empty());
        }
        while i < clause.len()
            invariant
                wf(self@),
                i <= clause@.len(),
                old_m.counter + clause@.len() <= usize::MAX,
                old_m.counter <= self@.counter <= old_m.counter + i,
                self@ == intern_clause_m(old_m, clause@.take(i as int)).0,
                out@ == intern_clause_m(old_m, clause@.take(i as int)).1,
                crate::logic::clause_in_range(out@, self@.counter),
                self@.snap == old_m.snap,
                self@.clauses == old_m.clauses,
            decreases clause@.len() - i,
        {
            let ghost prev_counter = self@.counter;
            let l = clause[i];
            let sl = self.register_literal(l);
            out.push(sl);
            proof {
                assert(clause@.take(i + 1).drop_last() =~= clause@.take(i as int));
                assert(clause@.take(i + 1).last() == clause@[i as int]);
                assert forall|j: int| 0 <= j < out@.len() implies crate::logic::lit_in_range(
                    #[trigger] out@[j],
                    self@.counter,
                ) by {
                    if j < out@.len() - 1 {
                        assert(crate::logic::lit_in_range(out@[j], prev_counter));
                    }
                }
            }
            i += 1;
        }
        proof {
            assert(clause@.take(clause@.len() as int) =~= clause@);
        }
        out
    }

    /// Intern a clause and append it to the store.
    pub fn add(&mut self, clause: Vec<Literal<Var>>)
        requires
            wf(old(self)@),
            old(self)@.counter + clause@.len() <= usize::MAX,
        ensures
            wf(final(self)@),
            final(self)@ == add_m(old(self)@, clause@),
            old(self)@.counter <= final(self)@.counter <= old(self)@.counter + clause@.len(),
            final(self)@.snap == old(self)@.snap,
    {
        let ghost old_m = self@;
        let lc = self.register_clause(&clause);
        self.add_raw_clause(lc);
        proof {
            assert(final(self)@ =~= add_m(old_m, clause@));
        }
    }
}

/// Builds one clause incrementally against a moved-in encoder; `end` gives
/// the encoder back with the clause appended.
pub struct ClauseBuilder {
    encoder: EncoderSAT,
    clause: Vec<SatLiteral>,
}

impl ClauseBuilder {
    /// The state of the underlying encoder.
    pub closed spec fn enc_model(&self) -> EncoderModel {
        self.encoder@
    }

    /// The integer literals accumulated so far.
    pub closed spec fn clause_model(&self) -> Seq<SatLiteral> {
        self.clause@
    }

    /// The builder's invariant.
    pub open spec fn builder_wf(&self) -> bool {
        &&& wf(self.enc_model())
        &&& crate::logic::clause_in_range(self.clause_model(), self.enc_model().counter)
    }

    /// Intern one more literal into the clause under construction.
    pub fn add(&mut self, literal: Literal<Var>)
        requires
            old(self).builder_wf(),
            old(self).enc_model().counter < usize::MAX,
        ensures
            final(self).builder_wf(),
            final(self).enc_model() == intern_var_m(
                old(self).enc_model(),
                literal.spec_inner(),
            ).0,
            final(self).clause_model() == old(self).clause_model().push(
                lit_with_id(
                    literal,
                    intern_var_m(old(self).enc_model(), literal.spec_inner()).1,
                ),
            ),
    {
        let sl = self.encoder.register_literal(literal);
        self.clause.push(sl);
    }

    /// Append the built clause to the encoder's store and give it back.
    pub fn end(self) -> (r: EncoderSAT)
        requires
            self.builder_wf(),
        ensures
            wf(r@),
            r@ == (EncoderModel {
                clauses: self.enc_model().clauses.push(self.clause_model()),
                ..self.enc_model()
            }),
    {
        let ClauseBuilder { mut encoder, clause } = self;
        encoder.add_raw_clause(clause);
        encoder
    }
}

impl EncoderSAT {
    /// Start building one clause; the encoder moves into the builder.
    pub fn clause(self) -> (r: ClauseBuilder)
        requires
            wf(self@),
        ensures
            r.builder_wf(),
            r.enc_model() == self@,
            r.clause_model() == Seq::<SatLiteral>::empty(),
    {
        let r = ClauseBuilder { encoder: self, clause: Vec::new() };
        proof {
            assert(r.clause_model() =~= Seq::<SatLiteral>::empty());
        }
        r
    }
}

} // verus!
