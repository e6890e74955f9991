//! The DIMACS-CNF text format: `p cnf <nvars> <nclauses>`, then one line
//! per clause of space-separated signed identifiers terminated by `0`.

use vstd::prelude::*;
use vstd::string::StringExecFns;

use crate::logic::{Literal, SatLiteral};

verus! {

/// The character of one decimal digit.
pub open spec fn digit_char(d: nat) -> char {
    if d == 0 {
        '0'
    } else if d == 1 {
        '1'
    } else if d == 2 {
        '2'
    } else if d == 3 {
        '3'
    } else if d == 4 {
        '4'
    } else if d == 5 {
        '5'
    } else if d == 6 {
        '6'
    } else if d == 7 {
        '7'
    } else if d == 8 {
        '8'
    } else {
        '9'
    }
}

/// The decimal representation of a number, most significant digit first.
pub open spec fn dec_rep(n: nat) -> Seq<char>
    decreases n,
{
    if n < 10 {
        seq![digit_char(n)]
    } else {
        dec_rep(n / 10).push(digit_char(n % 10))
    }
}

/// The characters of one literal: its identifier, `-`-prefixed when
/// negative.
pub open spec fn lit_chars(l: SatLiteral) -> Seq<char> {
    match l {
        Literal::Pos(v) => dec_rep(v as nat),
        Literal::Neg(v) => seq!['-'] + dec_rep(v as nat),
    }
}

/// The characters of the first `k` literals of a clause, each followed by
/// a space.
pub open spec fn lits_chars(c: Seq<SatLiteral>, k: int) -> Seq<char>
    decreases k,
{
    if k <= 0 {
        Seq::empty()
    } else {
        lits_chars(c, k - 1) + lit_chars(c[k - 1]) + seq![' ']
    }
}

/// The line of one clause.
pub open spec fn clause_chars(c: Seq<SatLiteral>) -> Seq<char> {
    lits_chars(c, c.len() as int) + seq!['0', '\n']
}

/// The lines of the first `k` clauses.
pub open spec fn clauses_chars(cs: Seq<Seq<SatLiteral>>, k: int) -> Seq<char>
    decreases k,
{
    if k <= 0 {
        Seq::empty()
    } else {
        clauses_chars(cs, k - 1) + clause_chars(cs[k - 1])
    }
}

/// The whole DIMACS text for `nvars` variables and the given clauses.
pub open spec fn dimacs_chars(nvars: nat, cs: Seq<Seq<SatLiteral>>) -> Seq<char> {
    seq!['p', ' ', 'c', 'n', 'f', ' '] + dec_rep(nvars) + seq![' '] + dec_rep(cs.len())
        + seq!['\n'] + clauses_chars(cs, cs.len() as int)
}

/// The single-character string of one decimal digit.
fn digit_str(d: usize) -> (r: &'static str)
    requires
        d < 10,
    ensures
        r@ == seq![digit_char(d as nat)],
{
    if d == 0 {
        proof {
            reveal_strlit("0");
        }
        "0"
    } else if d == 1 {
        proof {
            reveal_strlit("1");
        }
        "1"
    } else if d == 2 {
        proof {
            reveal_strlit("2");
        }
        "2"
    } else if d == 3 {
        proof {
            reveal_strlit("3");
        }
        "3"
    } else if d == 4 {
        proof {
            reveal_strlit("4");
        }
        "4"
    } else if d == 5 {
        proof {
            reveal_strlit("5");
        }
        "5"
    } else if d == 6 {
        proof {
            reveal_strlit("6");
        }
        "6"
    } else if d == 7 {
        proof {
            reveal_strlit("7");
        }
        "7"
    } else if d == 8 {
        proof {
            reveal_strlit("8");
        }
        "8"
    } else {
        proof {
            reveal_strlit("9");
        }
        "9"
    }
}

/// Append the decimal representation of `n`.
pub fn push_dec(s: &mut String, n: usize)
    ensures
        final(s)@ == old(s)@ + dec_rep(n as nat),
    decreases n,
{
    let ghost pre = s@;
    if n >= 10 {
        push_dec(s, n / 10);
        let ds = digit_str(n % 10);
        s.append(ds);
        proof {
            assert(s@ =~= pre + dec_rep(n as nat));
        }
    } else {
        let ds = digit_str(n);
        s.append(ds);
        proof {
            assert(s@ =~= pre + dec_rep(n as nat));
        }
    }
}

/// Append the line of one clause.
pub fn push_clause(s: &mut String, c: &Vec<SatLiteral>)
    ensures
        final(s)@ == old(s)@ + clause_chars(c@),
{
    let ghost pre = s@;
    let mut j: usize = 0;
    while j < c.len()
        invariant
            j <= c@.len(),
            s@ == pre + lits_chars(c@, j as int),
        decreases c@.len() - j,
    {
        let ghost before = s@;
        match c[j] {
            Literal::Pos(v) => {
                push_dec(s, v);
            },
            Literal::Neg(v) => {
                proof {
                    reveal_strlit("-");
                }
                s.append("-");
                push_dec(s, v);
            },
        }
        proof {
            reveal_strlit(" ");
        }
        s.append(" ");
        proof {
            assert(s@ =~= pre + lits_chars(c@, j + 1));
        }
        j += 1;
    }
    proof {
        reveal_strlit("0\n");
    }
    s.append("0\n");
    proof {
        assert("0\n"@ =~= seq!['0', '\n']);
        assert(s@ =~= pre + clause_chars(c@));
    }
}

} // verus!
