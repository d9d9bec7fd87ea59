//! The graph export: a directed-graph text rendering of a memo with one
//! declaration line per group (box shape) and per expression (oval shape,
//! colored by kind), one edge line per group-to-member and per
//! expression-to-child relation, and a closing delimiter. The exact text is
//! pinned down character by character by `dot_text`.

use crate::memo::{kinds_consistent, MemoView, RawMemo};
use vstd::prelude::*;
use vstd::string::StringExecFns;

verus! {

/// The character for one decimal digit.
pub open spec fn digit_char(d: int) -> char {
    if d == 0 {
        '0'
    } else if d == 1 {
        '1'
    } else if d == 2 {
        '2'
    } else if d == 3 {
        '3'
    } else if d == 4 {
        '4'
    } else if d == 5 {
        '5'
    } else if d == 6 {
        '6'
    } else if d == 7 {
        '7'
    } else if d == 8 {
        '8'
    } else {
        '9'
    }
}

/// The decimal rendering of `n`, most significant digit first.
pub open spec fn dec_digits(n: int) -> Seq<char>
    decreases n,
{
    if n < 10 {
        seq![digit_char(n)]
    } else {
        dec_digits(n / 10).push(digit_char(n % 10))
    }
}

/// The edge lines from group `i` to its first `j` members.
pub open spec fn group_edges_upto(m: MemoView, i: int, j: int) -> Seq<char>
    decreases j,
{
    if j <= 0 {
        Seq::empty()
    } else {
        group_edges_upto(m, i, j - 1) + "\"g"@ + dec_digits(i) + "\" -> \"e"@ + dec_digits(
            m.groups[i].exprs[j - 1] as int,
        ) + "\";\n"@
    }
}

/// The declaration and edge lines of the first `i` groups.
pub open spec fn groups_text_upto(m: MemoView, i: int) -> Seq<char>
    decreases i,
{
    if i <= 0 {
        Seq::empty()
    } else {
        groups_text_upto(m, i - 1) + "\"g"@ + dec_digits(i - 1) + "\" [shape=box];\n"@
            + group_edges_upto(m, i - 1, m.groups[i - 1].exprs.len() as int)
    }
}

/// The edge lines from expression `i` to its first `k` children.
pub open spec fn expr_edges_upto(m: MemoView, i: int, k: int) -> Seq<char>
    decreases k,
{
    if k <= 0 {
        Seq::empty()
    } else {
        expr_edges_upto(m, i, k - 1) + "\"e"@ + dec_digits(i) + "\" -> \"g"@ + dec_digits(
            m.exprs[i].children[k - 1] as int,
        ) + "\";\n"@
    }
}

/// The declaration and edge lines of the first `i` expressions.
pub open spec fn exprs_text_upto(m: MemoView, i: int) -> Seq<char>
    decreases i,
{
    if i <= 0 {
        Seq::empty()
    } else {
        exprs_text_upto(m, i - 1) + "\"e"@ + dec_digits(i - 1)
            + "\" [shape=oval,style=filled,color="@ + dec_digits(m.exprs[i - 1].op + 1) + "];\n"@
            + expr_edges_upto(m, i - 1, m.exprs[i - 1].children.len() as int)
    }
}

/// The whole rendering: header, group lines, expression lines, delimiter.
pub open spec fn dot_text(m: MemoView) -> Seq<char> {
    "digraph Memo {\n"@ + "node [colorscheme=set312]\n"@ + groups_text_upto(m, m.groups.len() as int)
        + exprs_text_upto(m, m.exprs.len() as int) + "}\n"@
}

/// One decimal digit as text.
fn digit_str(d: usize) -> (r: &'static str)
    requires
        d < 10,
    ensures
        r@ == seq![digit_char(d as int)],
{
    proof {
        reveal_strlit("0");
        reveal_strlit("1");
        reveal_strlit("2");
        reveal_strlit("3");
        reveal_strlit("4");
        reveal_strlit("5");
        reveal_strlit("6");
        reveal_strlit("7");
        reveal_strlit("8");
        reveal_strlit("9");
    }
    let r: &'static str = if d == 0 {
        "0"
    } else if d == 1 {
        "1"
    } else if d == 2 {
        "2"
    } else if d == 3 {
        "3"
    } else if d == 4 {
        "4"
    } else if d == 5 {
        "5"
    } else if d == 6 {
        "6"
    } else if d == 7 {
        "7"
    } else if d == 8 {
        "8"
    } else {
        "9"
    };
    proof {
        assert(r@ =~= seq![digit_char(d as int)]);
    }
    r
}

/// Appends the decimal rendering of `n`.
fn push_usize(s: &mut String, n: usize)
    ensures
        final(s)@ == old(s)@ + dec_digits(n as int),
    decreases n,
{
    if n < 10 {
        s.append(digit_str(n));
        proof {
            assert(old(s)@ + dec_digits(n as int) =~= old(s)@ + seq![digit_char(n as int)]);
        }
    } else {
        push_usize(s, n / 10);
        s.append(digit_str(n % 10));
        proof {
            assert(old(s)@ + dec_digits(n as int) =~= (old(s)@ + dec_digits(n as int / 10)).push(
                digit_char(n as int % 10),
            ));
            assert(s@ =~= old(s)@ + dec_digits(n as int));
        }
    }
}

impl RawMemo {
    /// Renders the memo in the directed-graph text format, exactly as
    /// `dot_text` spells it out.
    pub fn dump(&self) -> (r: String)
        requires
            kinds_consistent(self@.exprs),
        ensures
            r@ == dot_text(self@),
    {
        let ghost mv = self@;
        let mut s = String::new();
        s.append("digraph Memo {\n");
        s.append("node [colorscheme=set312]\n");
        let ghost header = "digraph Memo {\n"@ + "node [colorscheme=set312]\n"@;
        let ng = self.groups.len();
        let mut i: usize = 0;
        proof {
            assert(s@ =~= header + groups_text_upto(mv, 0));
        }
        while i < ng
            invariant
                mv == self@,
                i <= ng,
                ng == self.groups.len(),
                header == "digraph Memo {\n"@ + "node [colorscheme=set312]\n"@,
                s@ == header + groups_text_upto(mv, i as int),
            decreases ng - i,
        {
            s.append("\"g");
            push_usize(&mut s, i);
            s.append("\" [shape=box];\n");
            let nm = self.groups[i].exprs.len();
            let ghost before = s@;
            let mut j: usize = 0;
            while j < nm
                invariant
                    mv == self@,
                    i < self.groups.len(),
                    j <= nm,
                    nm == self.groups[i as int].exprs.len(),
                    s@ == before + group_edges_upto(mv, i as int, j as int),
                decreases nm - j,
            {
                s.append("\"g");
                push_usize(&mut s, i);
                s.append("\" -> \"e");
                push_usize(&mut s, self.groups[i].exprs[j]);
                s.append("\";\n");
                proof {
                    assert(s@ =~= before + group_edges_upto(mv, i as int, j + 1));
                }
                j += 1;
            }
            proof {
                assert(s@ =~= header + groups_text_upto(mv, i + 1));
            }
            i += 1;
        }
        let ghost gpart = s@;
        let ne = self.exprs.len();
        let mut a: usize = 0;
        proof {
            assert(s@ =~= gpart + exprs_text_upto(mv, 0));
        }
        while a < ne
            invariant
                mv == self@,
                kinds_consistent(mv.exprs),
                a <= ne,
                ne == self.exprs.len(),
                s@ == gpart + exprs_text_upto(mv, a as int),
            decreases ne - a,
        {
            s.append("\"e");
            push_usize(&mut s, a);
            s.append("\" [shape=oval,style=filled,color=");
            proof {
                assert(mv.exprs[a as int].op <= 2);
            }
            push_usize(&mut s, self.exprs[a].op + 1);
            s.append("];\n");
            let nc = self.exprs[a].children.len();
            let ghost before = s@;
            let mut k: usize = 0;
            while k < nc
                invariant
                    mv == self@,
                    a < self.exprs.len(),
                    k <= nc,
                    nc == self.exprs[a as int].children.len(),
                    s@ == before + expr_edges_upto(mv, a as int, k as int),
                decreases nc - k,
            {
                s.append("\"e");
                push_usize(&mut s, a);
                s.append("\" -> \"g");
                push_usize(&mut s, self.exprs[a].children[k]);
                s.append("\";\n");
                proof {
                    assert(s@ =~= before + expr_edges_upto(mv, a as int, k + 1));
                }
                k += 1;
            }
            proof {
                assert(s@ =~= gpart + exprs_text_upto(mv, a + 1));
            }
            a += 1;
        }
        s.append("}\n");
        proof {
            assert(s@ =~= dot_text(mv));
        }
        s
    }
}

} // verus!
