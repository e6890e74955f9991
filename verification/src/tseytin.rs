//! The Tseytin-style encoding used by refutation.
//!
//! `ask` must add the negation of a CNF query to the knowledge base.  The
//! negation of a conjunction of clauses is a disjunction of conjunctions;
//! one fresh auxiliary variable per query clause turns it back into CNF:
//! auxiliary `t_i` stands for "clause `i` is violated".  This module
//! defines the added clauses at the spec level and proves the encoding
//! equisatisfiable with "the knowledge base holds and the query does not".

use vstd::prelude::*;

use crate::logic::{
    clause_holds, clause_in_range, cnf_holds, cnf_in_range, cnf_sat, cnf_entails, lit_holds,
    lit_in_range, Literal, SatLiteral,
};

verus! {

/// The auxiliary literal standing for "query clause `i` is violated",
/// when auxiliaries start after identifier `n`.
pub open spec fn aux_lit(n: int, i: int) -> SatLiteral {
    Literal::Pos((n + 1 + i) as usize)
}

/// For each literal `l` of the query clause: the binary clause
/// `{not l, not t}`, forcing the clause's literals false whenever the
/// auxiliary holds.
pub open spec fn pair_clauses(c: Seq<SatLiteral>, t: int) -> Seq<Seq<SatLiteral>> {
    Seq::new(c.len(), |j: int| seq![c[j].spec_not(), Literal::Neg(t as usize)])
}

/// All clauses added for query clause `i`: the binary pairs and the
/// linking clause `c + {t_i}`.
pub open spec fn block(q: Seq<Seq<SatLiteral>>, n: int, i: int) -> Seq<Seq<SatLiteral>> {
    pair_clauses(q[i], n + 1 + i).push(q[i].push(aux_lit(n, i)))
}

/// The blocks of the first `k` query clauses, in emission order.
pub open spec fn blocks(q: Seq<Seq<SatLiteral>>, n: int, k: int) -> Seq<Seq<SatLiteral>>
    decreases k,
{
    if k <= 0 {
        Seq::empty()
    } else {
        blocks(q, n, k - 1) + block(q, n, k - 1)
    }
}

/// The closing disjunction `{t_0, ..., t_{m-1}}`: some query clause is
/// violated.
pub open spec fn t_clause(q: Seq<Seq<SatLiteral>>, n: int) -> Seq<SatLiteral> {
    Seq::new(q.len(), |i: int| aux_lit(n, i))
}

/// Everything `ask` adds on the multi-clause path, after the knowledge
/// base `kb`.
pub open spec fn tseytin_aug(
    kb: Seq<Seq<SatLiteral>>,
    q: Seq<Seq<SatLiteral>>,
    n: int,
) -> Seq<Seq<SatLiteral>> {
    kb + blocks(q, n, q.len() as int) + seq![t_clause(q, n)]
}

/// The negated unit clauses `{not l}` added on the single-clause path.
pub open spec fn neg_units(c: Seq<SatLiteral>) -> Seq<Seq<SatLiteral>> {
    Seq::new(c.len(), |j: int| seq![c[j].spec_not()])
}

/// A negated literal holds exactly when the literal does not.
proof fn lemma_not_lit(a: Seq<bool>, l: SatLiteral)
    ensures
        lit_holds(a, l.spec_not()) == !lit_holds(a, l),
{
}

/// The truth of the first `k` blocks decomposes blockwise.
proof fn lemma_blocks_holds(a: Seq<bool>, q: Seq<Seq<SatLiteral>>, n: int, k: int)
    requires
        0 <= k <= q.len(),
    ensures
        cnf_holds(a, blocks(q, n, k)) == forall|i: int|
            0 <= i < k ==> cnf_holds(a, #[trigger] block(q, n, i)),
    decreases k,
{
    if k > 0 {
        lemma_blocks_holds(a, q, n, k - 1);
        crate::logic::lemma_cnf_holds_add(a, blocks(q, n, k - 1), block(q, n, k - 1));
    }
}

/// Every identifier of the first `k` blocks lies in `1..=n+m`.
proof fn lemma_blocks_in_range(q: Seq<Seq<SatLiteral>>, n: int, k: int)
    requires
        0 <= k <= q.len(),
        cnf_in_range(q, n),
        n >= 0,
        n + q.len() <= usize::MAX,
    ensures
        cnf_in_range(blocks(q, n, k), n + q.len()),
    decreases k,
{
    let m = q.len() as int;
    if k > 0 {
        lemma_blocks_in_range(q, n, k - 1);
        let b = block(q, n, k - 1);
        assert forall|x: int| 0 <= x < b.len() implies clause_in_range(#[trigger] b[x], n + m) by {
            if x < q[k - 1].len() {
                assert(b[x] == pair_clauses(q[k - 1], n + k)[x]);
                assert(clause_in_range(q[k - 1], n));
                assert(b[x][0] == q[k - 1][x].spec_not());
                assert(b[x][1] == Literal::<usize>::Neg((n + k) as usize));
                assert forall|y: int| 0 <= y < b[x].len() implies lit_in_range(
                    #[trigger] b[x][y],
                    n + m,
                ) by {
                    if y == 0 {
                        assert(lit_in_range(q[k - 1][x], n));
                    }
                }
            } else {
                assert(b[x] == q[k - 1].push(aux_lit(n, k - 1)));
                assert forall|y: int| 0 <= y < b[x].len() implies lit_in_range(
                    #[trigger] b[x][y],
                    n + m,
                ) by {
                    if y < q[k - 1].len() {
                        assert(b[x][y] == q[k - 1][y]);
                        assert(lit_in_range(q[k - 1][y], n));
                    } else {
                        assert(b[x][y] == aux_lit(n, k - 1));
                    }
                }
            }
        }
        let whole = blocks(q, n, k);
        assert(whole == blocks(q, n, k - 1) + b);
        assert forall|x: int| 0 <= x < whole.len() implies clause_in_range(
            #[trigger] whole[x],
            n + m,
        ) by {
            if x < blocks(q, n, k - 1).len() {
                assert(whole[x] == blocks(q, n, k - 1)[x]);
            } else {
                assert(whole[x] == b[x - blocks(q, n, k - 1).len()]);
            }
        }
    }
}

/// The Tseytin encoding is satisfiable over `n + m` variables exactly when
/// some assignment over `n` variables satisfies the knowledge base and
/// violates the query.
pub proof fn lemma_tseytin_equisat(kb: Seq<Seq<SatLiteral>>, q: Seq<Seq<SatLiteral>>, n: int)
    requires
        cnf_in_range(kb, n),
        cnf_in_range(q, n),
        q.len() >= 1,
        n >= 0,
        n + q.len() <= usize::MAX,
    ensures
        cnf_sat(tseytin_aug(kb, q, n), n + q.len()) == exists|a: Seq<bool>|
            a.len() == n && cnf_holds(a, kb) && !cnf_holds(a, q),
{
    let m = q.len() as int;
    let aug = tseytin_aug(kb, q, n);
    if exists|a: Seq<bool>| a.len() == n && cnf_holds(a, kb) && !cnf_holds(a, q) {
        let a = choose|a: Seq<bool>| a.len() == n && cnf_holds(a, kb) && !cnf_holds(a, q);
        let b = a + Seq::new(m as nat, |i: int| !clause_holds(a, q[i]));
        assert(b.len() == n + m);
        assert(b.subrange(0, n) =~= a);
        // the knowledge base still holds under the extension
        crate::logic::lemma_cnf_holds_extend(a, b, kb);
        // each block holds
        assert forall|i: int| 0 <= i < m implies cnf_holds(b, #[trigger] block(q, n, i)) by {
            crate::logic::lemma_clause_holds_extend(a, b, q[i]);
            let bl = block(q, n, i);
            assert forall|x: int| 0 <= x < bl.len() implies clause_holds(b, #[trigger] bl[x]) by {
                if x < q[i].len() {
                    assert(bl[x] == pair_clauses(q[i], n + 1 + i)[x]);
                    assert(bl[x][0] == q[i][x].spec_not());
                    assert(bl[x][1] == Literal::<usize>::Neg((n + 1 + i) as usize));
                    if b[n + i] {
                        // the auxiliary is set: clause i is violated, so
                        // its literal is false and the negation holds
                        assert(!clause_holds(a, q[i]));
                        assert(!lit_holds(a, q[i][x]));
                        crate::logic::lemma_clause_holds_extend(a, b, q[i]);
                        assert(lit_in_range(q[i][x], n));
                        assert(b[q[i][x].spec_inner() - 1] == a[q[i][x].spec_inner() - 1]);
                        assert(!lit_holds(b, q[i][x]));
                        assert(lit_holds(b, bl[x][0]));
                    } else {
                        assert(lit_holds(b, bl[x][1]));
                    }
                } else {
                    assert(bl[x] == q[i].push(aux_lit(n, i)));
                    if clause_holds(a, q[i]) {
                        let j = choose|j: int| 0 <= j < q[i].len() && lit_holds(a, #[trigger] q[i][j]);
                        assert(lit_in_range(q[i][j], n));
                        assert(b[q[i][j].spec_inner() - 1] == a[q[i][j].spec_inner() - 1]);
                        assert(lit_holds(b, q[i][j]));
                        assert(bl[x][j] == q[i][j]);
                        assert(clause_holds(b, bl[x]));
                    } else {
                        assert(b[n + i]);
                        assert(bl[x][q[i].len() as int] == aux_lit(n, i));
                        assert(lit_holds(b, aux_lit(n, i)));
                        assert(clause_holds(b, bl[x]));
                    }
                }
            }
        }
        lemma_blocks_holds(b, q, n, m);
        // the closing disjunction holds: some clause is violated
        let i0 = choose|i: int| 0 <= i < m && !clause_holds(a, #[trigger] q[i]);
        assert(b[n + i0]);
        assert(t_clause(q, n)[i0] == aux_lit(n, i0));
        assert(lit_holds(b, t_clause(q, n)[i0]));
        assert(clause_holds(b, t_clause(q, n)));
        crate::logic::lemma_cnf_holds_add(b, kb + blocks(q, n, m), seq![t_clause(q, n)]);
        crate::logic::lemma_cnf_holds_add(b, kb, blocks(q, n, m));
        assert(cnf_holds(b, seq![t_clause(q, n)])) by {
            assert(seq![t_clause(q, n)][0] == t_clause(q, n));
        }
        assert(cnf_holds(b, aug));
        assert(cnf_sat(aug, n + m));
    }
    if cnf_sat(aug, n + m) {
        let b = choose|b: Seq<bool>| b.len() == n + m && cnf_holds(b, aug);
        let a = b.subrange(0, n);
        crate::logic::lemma_cnf_holds_add(b, kb + blocks(q, n, m), seq![t_clause(q, n)]);
        crate::logic::lemma_cnf_holds_add(b, kb, blocks(q, n, m));
        crate::logic::lemma_cnf_holds_extend(a, b, kb);
        assert(cnf_holds(a, kb));
        // the closing disjunction picks a violated clause
        assert(clause_holds(b, t_clause(q, n))) by {
            assert(cnf_holds(b, seq![t_clause(q, n)]));
            assert(seq![t_clause(q, n)][0] == t_clause(q, n));
        }
        let i0 = choose|i: int| 0 <= i < m && lit_holds(b, #[trigger] t_clause(q, n)[i]);
        assert(b[n + i0]);
        lemma_blocks_holds(b, q, n, m);
        assert(cnf_holds(b, block(q, n, i0)));
        let bl = block(q, n, i0);
        assert forall|j: int| 0 <= j < q[i0].len() implies !lit_holds(a, #[trigger] q[i0][j]) by {
            assert(bl[j] == pair_clauses(q[i0], n + 1 + i0)[j]);
            assert(clause_holds(b, bl[j]));
            assert(bl[j][0] == q[i0][j].spec_not());
            assert(bl[j][1] == Literal::<usize>::Neg((n + 1 + i0) as usize));
            assert(!lit_holds(b, bl[j][1]));
            let x = choose|x: int| 0 <= x < bl[j].len() && lit_holds(b, #[trigger] bl[j][x]);
            assert(x == 0);
            assert(lit_holds(b, q[i0][j].spec_not()));
            assert(!lit_holds(b, q[i0][j]));
            assert(lit_in_range(q[i0][j], n));
            assert(a[q[i0][j].spec_inner() - 1] == b[q[i0][j].spec_inner() - 1]);
        }
        assert(!clause_holds(a, q[i0]));
        assert(!cnf_holds(a, q));
        assert(a.len() == n && cnf_holds(a, kb) && !cnf_holds(a, q));
    }
}

/// Refutation on the multi-clause path: the augmented store is
/// unsatisfiable exactly when the knowledge base entails the query.
pub proof fn lemma_tseytin_refutation(kb: Seq<Seq<SatLiteral>>, q: Seq<Seq<SatLiteral>>, n: int)
    requires
        cnf_in_range(kb, n),
        cnf_in_range(q, n),
        q.len() >= 1,
        n >= 0,
        n + q.len() <= usize::MAX,
    ensures
        (!cnf_sat(tseytin_aug(kb, q, n), n + q.len())) == cnf_entails(kb, n, q),
{
    lemma_tseytin_equisat(kb, q, n);
    if !cnf_sat(tseytin_aug(kb, q, n), n + q.len()) {
        assert forall|a: Seq<bool>| a.len() == n && cnf_holds(a, kb) implies cnf_holds(a, q) by {
            if !cnf_holds(a, q) {
                assert(exists|a2: Seq<bool>|
                    a2.len() == n && cnf_holds(a2, kb) && !cnf_holds(a2, q));
            }
        }
    } else {
        let a = choose|a: Seq<bool>| a.len() == n && cnf_holds(a, kb) && !cnf_holds(a, q);
        assert(!cnf_entails(kb, n, q));
    }
}

/// Refutation on the single-clause path: appending the negation of each
/// literal is unsatisfiable exactly when the knowledge base entails the
/// clause.
pub proof fn lemma_unit_refutation(kb: Seq<Seq<SatLiteral>>, c: Seq<SatLiteral>, n: int)
    requires
        cnf_in_range(kb, n),
        clause_in_range(c, n),
        n >= 0,
    ensures
        (!cnf_sat(kb + neg_units(c), n)) == cnf_entails(kb, n, seq![c]),
{
    assert forall|a: Seq<bool>| a.len() == n implies cnf_holds(a, kb + neg_units(c)) == (cnf_holds(
        a,
        kb,
    ) && !clause_holds(a, c)) by {
        crate::logic::lemma_cnf_holds_add(a, kb, neg_units(c));
        if cnf_holds(a, neg_units(c)) {
            assert forall|j: int| 0 <= j < c.len() implies !lit_holds(a, #[trigger] c[j]) by {
                assert(clause_holds(a, neg_units(c)[j]));
                assert(neg_units(c)[j] == seq![c[j].spec_not()]);
                let x = choose|x: int|
                    0 <= x < neg_units(c)[j].len() && lit_holds(a, #[trigger] neg_units(c)[j][x]);
                assert(x == 0);
            }
            assert(!clause_holds(a, c));
        }
        if !clause_holds(a, c) {
            assert forall|j: int| 0 <= j < neg_units(c).len() implies clause_holds(
                a,
                #[trigger] neg_units(c)[j],
            ) by {
                assert(!lit_holds(a, c[j]));
                assert(neg_units(c)[j][0] == c[j].spec_not());
                assert(lit_holds(a, neg_units(c)[j][0]));
            }
        }
    }
    assert forall|a: Seq<bool>| a.len() == n implies cnf_holds(a, seq![c]) == clause_holds(a, c) by {
        assert(seq![c][0] == c);
        if clause_holds(a, c) {
            assert forall|i: int| 0 <= i < seq![c].len() implies clause_holds(
                a,
                #[trigger] seq![c][i],
            ) by {
                assert(i == 0);
            }
        }
    }
    if !cnf_sat(kb + neg_units(c), n) {
        assert forall|a: Seq<bool>| a.len() == n && cnf_holds(a, kb) implies cnf_holds(
            a,
            seq![c],
        ) by {
            if !cnf_holds(a, seq![c]) {
                assert(cnf_holds(a, kb + neg_units(c)));
            }
        }
    } else {
        let a = choose|a: Seq<bool>| a.len() == n && cnf_holds(a, kb + neg_units(c));
        assert(cnf_holds(a, kb) && !clause_holds(a, c));
        assert(!cnf_holds(a, seq![c]));
        assert(!cnf_entails(kb, n, seq![c]));
    }
}

} // verus!
