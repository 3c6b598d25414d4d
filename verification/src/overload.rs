//! Call patterns: one overload is an ordered list of slots, each a literal
//! constraint or a binder, matched against arguments first-come-first-served
//! in declaration order.

use vstd::prelude::*;

use crate::ast::{exprs_view, lemma_exprs_view, val_view, Expr, ExprM, Value};
use crate::error::ErrM;
use crate::ops::{s_val_eq, val_eq};

verus! {

/// Whether one pattern slot accepts one already-evaluated argument: a binder
/// accepts anything; a literal accepts exactly an equal literal value.
pub open spec fn s_slot_accepts(p: ExprM, a: ExprM) -> bool {
    match p {
        ExprM::Ref(_) => true,
        ExprM::Value(pv) => match a {
            ExprM::Value(av) => s_val_eq(pv, av) == Ok::<bool, ErrM>(true),
            _ => false,
        },
        _ => false,
    }
}

/// Whether a pattern accepts an argument list: equal arity, and every slot
/// accepts its argument.
pub open spec fn s_pattern_accepts(def: Seq<ExprM>, args: Seq<ExprM>) -> bool {
    def.len() == args.len() && (forall|i: int|
        0 <= i < def.len() ==> s_slot_accepts(def[i], #[trigger] args[i]))
}

/// Whether two patterns are interchangeable for redefinition: equal arity,
/// binders align with binders (names are immaterial), and literals align
/// with equal literals.
pub open spec fn s_slot_equiv(p: ExprM, q: ExprM) -> bool {
    match (p, q) {
        (ExprM::Ref(_), ExprM::Ref(_)) => true,
        (ExprM::Value(pv), ExprM::Value(qv)) => s_val_eq(pv, qv) == Ok::<bool, ErrM>(true),
        _ => false,
    }
}

pub open spec fn s_pattern_equiv(d1: Seq<ExprM>, d2: Seq<ExprM>) -> bool {
    d1.len() == d2.len() && (forall|i: int|
        0 <= i < d1.len() ==> s_slot_equiv(d1[i], #[trigger] d2[i]))
}

/// Whether every slot of a pattern is a literal or a binder.
pub open spec fn s_pattern_valid(def: Seq<ExprM>) -> bool {
    forall|i: int| 0 <= i < def.len() ==> (#[trigger] def[i] is Value || def[i] is Ref)
}

/// One callable signature: an ordered list of pattern slots.
#[derive(Debug)]
pub struct Overload {
    slots: Vec<Expr>,
}

impl Overload {
    /// The model: the slot list.
    pub closed spec fn view(&self) -> Seq<ExprM> {
        exprs_view(self.slots@)
    }

    /// The empty pattern, of arity zero.
    pub fn new() -> (r: Overload)
        ensures
            r@ == Seq::<ExprM>::empty(),
    {
        let r = Overload { slots: Vec::new() };
        proof {
            assert(r@ =~= Seq::<ExprM>::empty());
        }
        r
    }

    /// A pattern made of the given slots.
    pub fn from(slots: Vec<Expr>) -> (r: Overload)
        ensures
            r@ == exprs_view(slots@),
    {
        Overload { slots }
    }

    /// The arity.
    pub fn count(&self) -> (r: usize)
        ensures
            r == self@.len(),
    {
        proof {
            lemma_exprs_view(self.slots@);
        }
        self.slots.len()
    }

    /// The ordered view over the slots.
    pub fn iter(&self) -> (r: &Vec<Expr>)
        ensures
            exprs_view(r@) == self@,
    {
        &self.slots
    }

    /// Whether the supplied, already-evaluated arguments satisfy this
    /// pattern's constraints.
    pub fn accepts(&self, args: &Vec<Expr>) -> (r: bool)
        ensures
            r == s_pattern_accepts(self@, exprs_view(args@)),
    {
        slots_accept(&self.slots, args)
    }
}

/// Whether each slot of `def` accepts the matching element of `args`.
pub fn slots_accept(def: &Vec<Expr>, args: &Vec<Expr>) -> (r: bool)
    ensures
        r == s_pattern_accepts(exprs_view(def@), exprs_view(args@)),
{
    proof {
        lemma_exprs_view(def@);
        lemma_exprs_view(args@);
    }
    if def.len() != args.len() {
        return false;
    }
    let n = def.len();
    let mut i: usize = 0;
    while i < n
        invariant
            0 <= i <= n,
            n == def@.len() == args@.len(),
            forall|j: int|
                0 <= j < i ==> s_slot_accepts(
                    exprs_view(def@)[j],
                    #[trigger] exprs_view(args@)[j],
                ),
        decreases n - i,
    {
        proof {
            lemma_exprs_view(def@);
            lemma_exprs_view(args@);
        }
        let ok = match (&def[i], &args[i]) {
            (Expr::Ref(_), _) => true,
            (Expr::Value(pv), Expr::Value(av)) => match val_eq(pv, av) {
                Ok(true) => true,
                _ => false,
            },
            _ => false,
        };
        if !ok {
            proof {
                assert(!s_slot_accepts(exprs_view(def@)[i as int], exprs_view(args@)[i as int]));
            }
            return false;
        }
        i = i + 1;
    }
    true
}

/// Whether two patterns are interchangeable for redefinition.
pub fn slots_equiv(d1: &Vec<Expr>, d2: &Vec<Expr>) -> (r: bool)
    ensures
        r == s_pattern_equiv(exprs_view(d1@), exprs_view(d2@)),
{
    proof {
        lemma_exprs_view(d1@);
        lemma_exprs_view(d2@);
    }
    if d1.len() != d2.len() {
        return false;
    }
    let n = d1.len();
    let mut i: usize = 0;
    while i < n
        invariant
            0 <= i <= n,
            n == d1@.len() == d2@.len(),
            forall|j: int|
                0 <= j < i ==> s_slot_equiv(exprs_view(d1@)[j], #[trigger] exprs_view(d2@)[j]),
        decreases n - i,
    {
        proof {
            lemma_exprs_view(d1@);
            lemma_exprs_view(d2@);
        }
        let ok = match (&d1[i], &d2[i]) {
            (Expr::Ref(_), Expr::Ref(_)) => true,
            (Expr::Value(pv), Expr::Value(qv)) => match val_eq(pv, qv) {
                Ok(true) => true,
                _ => false,
            },
            _ => false,
        };
        if !ok {
            proof {
                assert(!s_slot_equiv(exprs_view(d1@)[i as int], exprs_view(d2@)[i as int]));
            }
            return false;
        }
        i = i + 1;
    }
    true
}

/// Whether every slot is a literal or a binder.
pub fn slots_valid(def: &Vec<Expr>) -> (r: bool)
    ensures
        r == s_pattern_valid(exprs_view(def@)),
{
    proof {
        lemma_exprs_view(def@);
    }
    let n = def.len();
    let mut i: usize = 0;
    while i < n
        invariant
            0 <= i <= n,
            n == def@.len(),
            forall|j: int|
                0 <= j < i ==> ((#[trigger] exprs_view(def@)[j]) is Value || exprs_view(
                    def@,
                )[j] is Ref),
        decreases n - i,
    {
        proof {
            lemma_exprs_view(def@);
        }
        match &def[i] {
            Expr::Value(_) => {},
            Expr::Ref(_) => {},
            _ => {
                proof {
                    assert(!(exprs_view(def@)[i as int] is Value) && !(exprs_view(
                        def@,
                    )[i as int] is Ref));
                }
                return false;
            },
        }
        i = i + 1;
    }
    true
}

} // verus!
