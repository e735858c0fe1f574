//! Textual rendering of a query: the term-list expression and the
//! plan dump, with an exactly specified decimal formatter.

use vstd::prelude::*;
use vstd::string::StringExecFns;
use crate::query::{Query, Term};

verus! {

/// The character of one decimal digit.
pub open spec fn dec_digit(d: int) -> char {
    if d == 0 {
        '0'
    } else if d == 1 {
        '1'
    } else if d == 2 {
        '2'
    } else if d == 3 {
        '3'
    } else if d == 4 {
        '4'
    } else if d == 5 {
        '5'
    } else if d == 6 {
        '6'
    } else if d == 7 {
        '7'
    } else if d == 8 {
        '8'
    } else {
        '9'
    }
}

/// Decimal rendering of a number, most significant digit first.
pub open spec fn dec_str(n: nat) -> Seq<char>
    decreases n,
{
    if n < 10 {
        seq![dec_digit(n as int)]
    } else {
        dec_str(n / 10) + seq![dec_digit((n % 10) as int)]
    }
}

/// Rendering of one term: a plain term as its entity value, a pair
/// term as `(first,second)` — the two are distinguishable by their
/// first character.
pub open spec fn term_str(t: Term) -> Seq<char> {
    if t.id.is_pair_spec() {
        seq!['('] + dec_str(t.id.first_spec() as nat) + seq![','] + dec_str(
            t.id.second_spec() as nat,
        ) + seq![')']
    } else {
        dec_str(t.id.entity_spec() as nat)
    }
}

/// Rendering of the first `m` terms, separated by ", ". The resulting
/// expression lists the terms the query was built from, in order.
pub open spec fn terms_str(terms: Seq<Term>, m: int) -> Seq<char>
    decreases m,
{
    if m <= 0 {
        Seq::empty()
    } else if m == 1 {
        term_str(terms[0])
    } else {
        terms_str(terms, m - 1) + seq![',', ' '] + term_str(terms[m - 1])
    }
}

/// One line of the plan dump: the term's position, a space, the term,
/// a line break.
pub open spec fn plan_line(t: Term, idx: int) -> Seq<char> {
    dec_str(idx as nat) + seq![' '] + term_str(t) + seq!['\n']
}

/// The plan dump of the first `m` terms: one line per term, in the
/// order the plan evaluates them.
pub open spec fn plan_str(terms: Seq<Term>, m: int) -> Seq<char>
    decreases m,
{
    if m <= 0 {
        Seq::empty()
    } else {
        plan_str(terms, m - 1) + plan_line(terms[m - 1], m - 1)
    }
}

pub proof fn lemma_dec_str_len(n: nat)
    ensures
        dec_str(n).len() >= 1,
    decreases n,
{
    if n >= 10 {
        lemma_dec_str_len(n / 10);
    }
}

/// A decimal rendering never opens with a parenthesis.
pub proof fn lemma_dec_str_no_paren(n: nat)
    ensures
        dec_str(n)[0] != '(',
    decreases n,
{
    if n >= 10 {
        lemma_dec_str_no_paren(n / 10);
        lemma_dec_str_len(n / 10);
    }
}

/// A plain term and a pair term render distinguishably: the pair opens
/// with a parenthesis, the plain term with a digit.
pub proof fn lemma_term_renderings_distinguishable(a: Term, b: Term)
    requires
        !a.id.is_pair_spec(),
        b.id.is_pair_spec(),
    ensures
        term_str(b)[0] == '(',
        term_str(a)[0] != '(',
{
    lemma_dec_str_len(a.id.entity_spec() as nat);
    lemma_dec_str_no_paren(a.id.entity_spec() as nat);
}

/// Append one decimal digit.
fn push_digit(out: &mut String, d: u64)
    requires
        d < 10,
    ensures
        final(out)@ == old(out)@ + seq![dec_digit(d as int)],
{
    proof {
        reveal_strlit("0");
        reveal_strlit("1");
        reveal_strlit("2");
        reveal_strlit("3");
        reveal_strlit("4");
        reveal_strlit("5");
        reveal_strlit("6");
        reveal_strlit("7");
        reveal_strlit("8");
        reveal_strlit("9");
    }
    if d == 0 {
        out.append("0");
    } else if d == 1 {
        out.append("1");
    } else if d == 2 {
        out.append("2");
    } else if d == 3 {
        out.append("3");
    } else if d == 4 {
        out.append("4");
    } else if d == 5 {
        out.append("5");
    } else if d == 6 {
        out.append("6");
    } else if d == 7 {
        out.append("7");
    } else if d == 8 {
        out.append("8");
    } else {
        out.append("9");
    }
    proof {
        assert(out@ =~= old(out)@ + seq![dec_digit(d as int)]);
    }
}

/// Append the decimal rendering of a number.
fn push_dec(out: &mut String, n: u64)
    ensures
        final(out)@ == old(out)@ + dec_str(n as nat),
    decreases n,
{
    if n < 10 {
        push_digit(out, n);
    } else {
        push_dec(out, n / 10);
        push_digit(out, n % 10);
        proof {
            assert(out@ =~= old(out)@ + dec_str(n as nat));
        }
    }
}

/// Append the rendering of one term.
fn push_term(out: &mut String, t: &Term)
    ensures
        final(out)@ == old(out)@ + term_str(*t),
{
    proof {
        reveal_strlit("(");
        reveal_strlit(",");
        reveal_strlit(")");
    }
    if t.id.is_pair() {
        out.append("(");
        push_dec(out, t.id.first());
        out.append(",");
        push_dec(out, t.id.second());
        out.append(")");
        proof {
            assert(out@ =~= old(out)@ + term_str(*t));
        }
    } else {
        push_dec(out, t.id.entity());
        proof {
            assert(out@ =~= old(out)@ + term_str(*t));
        }
    }
}

impl Query {
    /// The query's term list as a string expression: the terms in
    /// order, a plain term rendered as its entity value, a pair term
    /// as `(first,second)`, separated by ", ".
    pub fn to_string(&self) -> (r: String)
        ensures
            r@ == terms_str(self.terms@, self.terms@.len() as int),
    {
        let mut out = String::new();
        let n = self.terms.len();
        let mut j: usize = 0;
        while j < n
            invariant
                n == self.terms@.len(),
                j <= n,
                out@ == terms_str(self.terms@, j as int),
            decreases n - j,
        {
            if j > 0 {
                proof {
                    reveal_strlit(", ");
                    assert(", "@ =~= seq![',', ' ']);
                }
                out.append(", ");
            }
            push_term(&mut out, &self.terms[j]);
            j = j + 1;
            proof {
                assert(out@ =~= terms_str(self.terms@, j as int));
            }
        }
        out
    }

    /// The query's execution-plan dump: one line per term, each line
    /// holding the term's position, a space, the term, a line break.
    pub fn plan(&self) -> (r: String)
        ensures
            r@ == plan_str(self.terms@, self.terms@.len() as int),
    {
        let mut out = String::new();
        let n = self.terms.len();
        let mut j: usize = 0;
        while j < n
            invariant
                n == self.terms@.len(),
                j <= n,
                out@ == plan_str(self.terms@, j as int),
            decreases n - j,
        {
            push_dec(&mut out, j as u64);
            proof {
                reveal_strlit(" ");
                assert(" "@ =~= seq![' ']);
                reveal_strlit("\n");
                assert("\n"@ =~= seq!['\n']);
            }
            out.append(" ");
            push_term(&mut out, &self.terms[j]);
            out.append("\n");
            j = j + 1;
            proof {
                assert(out@ =~= plan_str(self.terms@, j as int));
            }
        }
        out
    }
}

} // verus!
