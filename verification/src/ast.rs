//! The expression tree and its evaluator.
//!
//! Evaluation happens in two steps.  `draw` performs every die roll,
//! producing a tree annotated with the concrete outcomes; `eval_rolled` is a
//! pure function from that annotated tree to the value and the work trace.
//! `eval` chains the two, so everything past the random draws is verified
//! exactly.
use vstd::prelude::*;

use crate::arith::{sat64, sat_add_i64, sat_div_i64, sat_mul_i64, sat_sub_i64, trunc_div};
use crate::text::{dec_i, string_of_i64};
use crate::rng::{fresh_rng, roll_die_once};

verus! {

/// A binary arithmetic operator.
#[derive(Clone, Copy, Debug, PartialEq, Eq, Structural)]
pub enum BinOp {
    Add,
    Sub,
    Mul,
    Div,
}

/// A node of the parsed expression tree: a literal constant, a die roll
/// (`count` dice of `sides` sides each), or a binary operation.
#[derive(Debug)]
pub enum AstExpr {
    Const(i64),
    Die { count: i64, sides: i64 },
    Op { op: BinOp, left: Box<AstExpr>, right: Box<AstExpr> },
}

/// An expression tree whose die nodes carry the outcomes of their rolls.
#[derive(Debug)]
pub enum RolledExpr {
    Const(i64),
    Die { count: i64, sides: i64, rolls: Vec<i64> },
    Op { op: BinOp, left: Box<RolledExpr>, right: Box<RolledExpr> },
}

/// A single roll outcome is within `[1, sides]`; a die with no sides (or a
/// negative count of sides) yields 0.
pub open spec fn roll_ok(sides: int, r: int) -> bool {
    if sides >= 1 {
        1 <= r <= sides
    } else {
        r == 0
    }
}

/// `re` is `e` with each die node annotated by one outcome per die rolled:
/// same shape, and every outcome within range.
pub open spec fn rolled_wf(e: AstExpr, re: RolledExpr) -> bool
    decreases e,
{
    match (e, re) {
        (AstExpr::Const(v), RolledExpr::Const(w)) => v == w,
        (
            AstExpr::Die { count, sides },
            RolledExpr::Die { count: rcount, sides: rsides, rolls },
        ) => {
            &&& rcount == count
            &&& rsides == sides
            &&& rolls@.len() == (if count >= 0 {
                count as int
            } else {
                0
            })
            &&& forall|i: int| 0 <= i < rolls@.len() ==> roll_ok(sides as int, rolls@[i] as int)
        },
        (
            AstExpr::Op { op, left, right },
            RolledExpr::Op { op: rop, left: rleft, right: rright },
        ) => {
            &&& rop == op
            &&& rolled_wf(*left, *rleft)
            &&& rolled_wf(*right, *rright)
        },
        _ => false,
    }
}

/// The sum of the rolls, clamped into the `i64` range at every step.
pub open spec fn sat_sum(s: Seq<i64>) -> int
    decreases s.len(),
{
    if s.len() == 0 {
        0
    } else {
        sat64(sat_sum(s.drop_last()) + s.last())
    }
}

/// The value of a rolled tree: a literal is itself, a die is the clamped sum
/// of its rolls, and operators use saturating arithmetic, with a division by
/// zero yielding 0.
pub open spec fn spec_value(re: RolledExpr) -> int
    decreases re,
{
    match re {
        RolledExpr::Const(v) => v as int,
        RolledExpr::Die { rolls, .. } => sat_sum(rolls@),
        RolledExpr::Op { op, left, right } => {
            let l = spec_value(*left);
            let r = spec_value(*right);
            match op {
                BinOp::Add => sat64(l + r),
                BinOp::Sub => sat64(l - r),
                BinOp::Mul => sat64(l * r),
                BinOp::Div => if r == 0 {
                    0
                } else {
                    sat64(trunc_div(l, r))
                },
            }
        },
    }
}

/// The comma-separated decimal texts of the rolls, in the order drawn.
pub open spec fn rolls_text(s: Seq<i64>) -> Seq<char>
    decreases s.len(),
{
    if s.len() == 0 {
        Seq::empty()
    } else if s.len() == 1 {
        dec_i(s[0] as int)
    } else {
        rolls_text(s.drop_last()) + ", "@ + dec_i(s.last() as int)
    }
}

/// The operator's rendering inside a trace.
pub open spec fn op_text(op: BinOp) -> Seq<char> {
    match op {
        BinOp::Add => " + "@,
        BinOp::Sub => " - "@,
        BinOp::Mul => " * "@,
        BinOp::Div => " / "@,
    }
}

/// The work trace of a rolled tree: a literal is its decimal text, a die is
/// the bracketed list of its rolls, and an operation joins its children's
/// traces with the operator — except that a division by zero replaces the
/// node's whole trace with a fixed marker.
pub open spec fn spec_trace(re: RolledExpr) -> Seq<char>
    decreases re,
{
    match re {
        RolledExpr::Const(v) => dec_i(v as int),
        RolledExpr::Die { rolls, .. } => "["@ + rolls_text(rolls@) + "]"@,
        RolledExpr::Op { op, left, right } => {
            if op == BinOp::Div && spec_value(*right) == 0 {
                "ERROR: DIVIDE BY ZERO"@
            } else {
                spec_trace(*left) + op_text(op) + spec_trace(*right)
            }
        },
    }
}

impl AstExpr {
    /// Roll every die in the tree, producing the annotated tree.  The
    /// outcomes are random; only their count and range is promised.
    pub fn draw(&self, rng: &mut rand::rngs::ThreadRng) -> (re: RolledExpr)
        ensures
            rolled_wf(*self, re),
        decreases *self,
    {
        match self {
            AstExpr::Const(v) => RolledExpr::Const(*v),
            AstExpr::Die { count, sides } => {
                let c = *count;
                let s = *sides;
                let mut rolls: Vec<i64> = Vec::new();
                let mut i: i64 = 0;
                while i < c
                    invariant
                        0 <= i,
                        c < 0 ==> i == 0,
                        c >= 0 ==> i <= c,
                        rolls@.len() == i as int,
                        forall|j: int|
                            0 <= j < rolls@.len() ==> roll_ok(s as int, rolls@[j] as int),
                    decreases c - i,
                {
                    let r = if s >= 1 {
                        roll_die_once(rng, s)
                    } else {
                        0
                    };
                    rolls.push(r);
                    i = i + 1;
                }
                RolledExpr::Die { count: c, sides: s, rolls }
            },
            AstExpr::Op { op, left, right } => {
                let l = left.draw(rng);
                let r = right.draw(rng);
                RolledExpr::Op { op: *op, left: Box::new(l), right: Box::new(r) }
            },
        }
    }

    /// Evaluate the tree: roll its dice, then compute the value and trace.
    /// Each call draws fresh rolls, so two evaluations of one tree may
    /// differ; every result is the exact value and trace of some in-range
    /// annotation of the tree.
    pub fn eval(&self) -> (out: (i64, String))
        ensures
            exists|re: RolledExpr|
                rolled_wf(*self, re) && out.0 as int == spec_value(re) && out.1@ == spec_trace(re),
    {
        let mut rng = fresh_rng();
        let re = self.draw(&mut rng);
        let out = re.eval_rolled();
        proof {
            assert(rolled_wf(*self, re) && out.0 as int == spec_value(re) && out.1@ == spec_trace(
                re,
            ));
        }
        out
    }
}

impl RolledExpr {
    /// Compute the value and the work trace of a rolled tree.  This is a
    /// pure function of the annotated tree.
    pub fn eval_rolled(&self) -> (out: (i64, String))
        ensures
            out.0 as int == spec_value(*self),
            out.1@ == spec_trace(*self),
        decreases *self,
    {
        match self {
            RolledExpr::Const(v) => (*v, string_of_i64(*v)),
            RolledExpr::Die { rolls, .. } => {
                let n = rolls.len();
                let mut sum: i64 = 0;
                let mut text = String::from_str("[");
                let mut i: usize = 0;
                proof {
                    assert(rolls@.take(0) == Seq::<i64>::empty());
                }
                while i < n
                    invariant
                        0 <= i <= n,
                        n == rolls@.len(),
                        sum as int == sat_sum(rolls@.take(i as int)),
                        text@ == "["@ + rolls_text(rolls@.take(i as int)),
                    decreases n - i,
                {
                    let r = rolls[i];
                    if i > 0 {
                        text.append(", ");
                    }
                    let rtext = string_of_i64(r);
                    text.append(rtext.as_str());
                    proof {
                        let p = rolls@.take(i as int);
                        let q = rolls@.take(i as int + 1);
                        assert(q.drop_last() == p);
                        assert(q.last() == rolls@[i as int]);
                        if i == 0 {
                            assert(q.len() == 1);
                            assert(q[0] == rolls@[0]);
                            assert(rolls_text(q) == dec_i(rolls@[0] as int));
                            assert(text@ == "["@ + rolls_text(q));
                        } else {
                            assert(rolls_text(q) == rolls_text(p) + ", "@ + dec_i(
                                rolls@[i as int] as int,
                            ));
                            assert(text@ == "["@ + rolls_text(q));
                        }
                        assert(sat_sum(q) == sat64(sat_sum(p) + rolls@[i as int]));
                    }
                    sum = sat_add_i64(sum, r);
                    i = i + 1;
                }
                text.append("]");
                proof {
                    assert(rolls@.take(n as int) == rolls@);
                }
                (sum, text)
            },
            RolledExpr::Op { op, left, right } => {
                let (lv, lt) = left.eval_rolled();
                let (rv, rt) = right.eval_rolled();
                match op {
                    BinOp::Add => {
                        let mut steps = lt;
                        steps.append(" + ");
                        steps.append(rt.as_str());
                        (sat_add_i64(lv, rv), steps)
                    },
                    BinOp::Sub => {
                        let mut steps = lt;
                        steps.append(" - ");
                        steps.append(rt.as_str());
                        (sat_sub_i64(lv, rv), steps)
                    },
                    BinOp::Mul => {
                        let mut steps = lt;
                        steps.append(" * ");
                        steps.append(rt.as_str());
                        (sat_mul_i64(lv, rv), steps)
                    },
                    BinOp::Div => {
                        if rv == 0 {
                            (0, String::from_str("ERROR: DIVIDE BY ZERO"))
                        } else {
                            let mut steps = lt;
                            steps.append(" / ");
                            steps.append(rt.as_str());
                            (sat_div_i64(lv, rv), steps)
                        }
                    },
                }
            },
        }
    }
}

} // verus!
