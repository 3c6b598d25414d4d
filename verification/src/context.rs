//! The mutable environment: a map from names to function tables, a call
//! stack of lexical frames, and a dependency graph that guards bare variable
//! bindings against cycles.

use vstd::prelude::*;

use crate::ast::{
    clone_expr, expr_view, exprs_view, ht, ht_list, lemma_exprs_view, lemma_ht_list_elem, Expr,
    ExprM, Operator, Value, ValM,
};
use crate::code::{code_view, lemma_code_view, CodeObject, InstrM, Instruction};
use crate::error::{ErrM, Error};
use crate::optimizer::{optimize, s_opt};
use crate::overload::{s_pattern_accepts, s_pattern_equiv, s_pattern_valid, slots_accept, slots_equiv, slots_valid};

verus! {

broadcast use crate::ast::group_view_axioms, crate::ast::group_ht_axioms;

/// The fixed bound on the depth of the call stack.
pub const MAX_STACK: usize = 64;

/// A built-in implementation provided by the standard context.
#[derive(Clone, Copy, Debug, PartialEq, Eq, Structural)]
pub enum Native {
    /// The circle constant, as a read slot.
    Pi,
    /// Euler's number, as a read slot.
    Euler,
    /// `if(condition, consequent, alternative)`: evaluates the condition and
    /// then only the selected branch.
    If,
    /// `sqrt(x)` and `sqrt(x, n)`: exact second and `n`-th roots.
    Sqrt,
    /// `log(x)` and `log(x, base)`: exact whole-number logarithms, base ten
    /// when no base is given.
    Log,
    /// `assert(condition)`: the unit value on truth, fatal otherwise.
    Assert,
}

/// One stored implementation: an interpreted body, a built-in, or a
/// compiled unit.
#[derive(Debug)]
pub enum VmFunction {
    Virtual(Expr),
    Native(Native),
    ByteCode(CodeObject),
}

/// The ghost mirror of a stored implementation.
pub enum FunM {
    Virtual(ExprM),
    Native(Native),
    ByteCode(Seq<InstrM>),
}

pub open spec fn fun_view(f: VmFunction) -> FunM {
    match f {
        VmFunction::Virtual(e) => FunM::Virtual(expr_view(e)),
        VmFunction::Native(n) => FunM::Native(n),
        VmFunction::ByteCode(co) => FunM::ByteCode(code_view(co.code@)),
    }
}

/// One overload: a pattern and the implementation it selects.
#[derive(Debug)]
pub struct VmFunctionOverload {
    pub definition: Vec<Expr>,
    pub implementation: VmFunction,
}

impl VmFunctionOverload {
    pub fn new(definition: Vec<Expr>, implementation: VmFunction) -> (r: VmFunctionOverload)
        ensures
            ovl_view(r) == (OvlM {
                definition: exprs_view(definition@),
                implementation: fun_view(implementation),
            }),
    {
        VmFunctionOverload { definition, implementation }
    }
}

/// The ghost mirror of an overload.
pub struct OvlM {
    pub definition: Seq<ExprM>,
    pub implementation: FunM,
}

pub open spec fn ovl_view(o: VmFunctionOverload) -> OvlM {
    OvlM { definition: exprs_view(o.definition@), implementation: fun_view(o.implementation) }
}

pub open spec fn ovls_view(s: Seq<VmFunctionOverload>) -> Seq<OvlM>
    decreases s,
{
    if s.len() == 0 {
        Seq::empty()
    } else {
        seq![ovl_view(s[0])] + ovls_view(s.drop_first())
    }
}

pub broadcast proof fn lemma_ovls_view(s: Seq<VmFunctionOverload>)
    ensures
        (#[trigger] ovls_view(s)).len() == s.len(),
        forall|i: int| 0 <= i < s.len() ==> ovls_view(s)[i] == ovl_view(s[i]),
    decreases s.len(),
{
    if s.len() > 0 {
        lemma_ovls_view(s.drop_first());
        assert forall|i: int| 0 <= i < s.len() implies ovls_view(s)[i] == ovl_view(s[i]) by {
            if i > 0 {
                assert(s.drop_first()[i - 1] == s[i]);
            }
        }
    }
}

/// One name's entry: an optional bare-read implementation and the stored
/// overloads, dispatched first-match in declaration order.
#[derive(Debug)]
pub struct VmFunctionTable {
    read: Option<VmFunction>,
    overloads: Vec<VmFunctionOverload>,
}

/// The ghost mirror of a function table.
pub struct TableM {
    pub read: Option<FunM>,
    pub overloads: Seq<OvlM>,
}

impl VmFunctionTable {
    /// The model of the table.
    pub closed spec fn view(&self) -> TableM {
        TableM {
            read: match self.read {
                None => None,
                Some(f) => Some(fun_view(f)),
            },
            overloads: ovls_view(self.overloads@),
        }
    }

    /// An empty table.
    pub fn new() -> (r: VmFunctionTable)
        ensures
            r@ == (TableM { read: None::<FunM>, overloads: Seq::<OvlM>::empty() }),
    {
        let r = VmFunctionTable { read: None, overloads: Vec::new() };
        proof {
            assert(r@.overloads =~= Seq::<OvlM>::empty());
        }
        r
    }

    /// The table extended by one interpreted overload (or read slot).
    pub fn with_virtual(self, params: &Option<Vec<Expr>>, expr: Expr) -> (r: VmFunctionTable)
        ensures
            r@ == s_lookup_set(self@, params_opt_view(*params), FunM::Virtual(expr_view(expr))),
    {
        let mut t = self;
        t.lookup_set(params, VmFunction::Virtual(expr));
        t
    }

    /// The table extended by one built-in overload (or read slot).
    pub fn with_native(self, params: &Option<Vec<Expr>>, n: Native) -> (r: VmFunctionTable)
        ensures
            r@ == s_lookup_set(self@, params_opt_view(*params), FunM::Native(n)),
    {
        let mut t = self;
        t.lookup_set(params, VmFunction::Native(n));
        t
    }

    /// The table extended by one compiled overload (or read slot).
    pub fn with_bytecode(self, params: &Option<Vec<Expr>>, co: CodeObject) -> (r: VmFunctionTable)
        ensures
            r@ == s_lookup_set(
                self@,
                params_opt_view(*params),
                FunM::ByteCode(code_view(co.code@)),
            ),
    {
        let mut t = self;
        t.lookup_set(params, VmFunction::ByteCode(co));
        t
    }

    /// The bare-read implementation, if one is stored.
    pub fn read(&self) -> (r: &Option<VmFunction>)
        ensures
            r is Some <==> self@.read is Some,
            r matches Some(f) ==> self@.read == Some(fun_view(*f)),
    {
        &self.read
    }

    /// Stores the bare-read implementation.
    pub fn set_read(&mut self, f: VmFunction)
        ensures
            final(self)@ == (TableM { read: Some(fun_view(f)), overloads: old(self)@.overloads }),
    {
        self.read = Some(f);
    }

    /// Looks up the first stored overload whose pattern accepts the
    /// arguments; `None` arguments select the bare-read entry, whose
    /// definition is empty.
    pub fn lookup(&self, params: &Option<Vec<Expr>>) -> (r: Option<
        (Option<&Vec<Expr>>, &VmFunction),
    >)
        ensures
            s_table_lookup(self@, params_opt_view(*params)) == (match r {
                None => None::<OvlM>,
                Some((d, f)) => Some(
                    OvlM {
                        definition: match d {
                            None => Seq::<ExprM>::empty(),
                            Some(dd) => exprs_view(dd@),
                        },
                        implementation: fun_view(*f),
                    },
                ),
            }),
            r matches Some((d, f)) ==> (d is None <==> *params is None),
    {
        match params {
            None => {
                match &self.read {
                    Some(f) => Some((None, f)),
                    None => None,
                }
            },
            Some(args) => match lookup_func(&self.overloads, args) {
                Some((d, f)) => Some((Some(d), f)),
                None => None,
            },
        }
    }

    /// Inserts or replaces one overload (or the bare-read slot when the
    /// pattern is absent): a stored overload with an interchangeable pattern
    /// is replaced in place, otherwise the new one is appended.
    pub fn lookup_set(&mut self, definition: &Option<Vec<Expr>>, implementation: VmFunction)
        ensures
            final(self)@ == s_lookup_set(
                old(self)@,
                params_opt_view(*definition),
                fun_view(implementation),
            ),
    {
        proof {
            lemma_ovls_view(self.overloads@);
        }
        match definition {
            None => {
                self.read = Some(implementation);
            },
            Some(def) => {
                match lookup_func_mut(&self.overloads, def) {
                    Some(i) => {
                        let slots = clone_exprs_local(def);
                        let ovl = VmFunctionOverload {
                            definition: slots,
                            implementation,
                        };
                        self.overloads.set(i, ovl);
                        proof {
                            lemma_ovls_view(old(self).overloads@);
                            lemma_ovls_view(self.overloads@);
                            assert(ovls_view(self.overloads@) =~= ovls_view(
                                old(self).overloads@,
                            ).update(
                                s_find_equiv(old(self)@.overloads, exprs_view(def@))->Some_0,
                                ovl_view(ovl),
                            ));
                        }
                    },
                    None => {
                        let slots = clone_exprs_local(def);
                        let ovl = VmFunctionOverload {
                            definition: slots,
                            implementation,
                        };
                        self.overloads.push(ovl);
                        proof {
                            lemma_ovls_view(old(self).overloads@);
                            lemma_ovls_view(self.overloads@);
                            assert(self.overloads@.drop_last() =~= old(self).overloads@);
                            assert(ovls_view(self.overloads@) =~= ovls_view(
                                old(self).overloads@,
                            ).push(ovl_view(ovl)));
                        }
                    },
                }
            },
        }
    }
}

/// The view of an optional argument or pattern list.
pub open spec fn params_opt_view(p: Option<Vec<Expr>>) -> Option<Seq<ExprM>> {
    match p {
        None => None,
        Some(ls) => Some(exprs_view(ls@)),
    }
}

/// What a table lookup selects: the bare-read entry for absent arguments
/// (with an empty definition), or the first overload whose pattern accepts
/// the arguments.
pub open spec fn s_table_lookup(t: TableM, params: Option<Seq<ExprM>>) -> Option<OvlM> {
    match params {
        None => match t.read {
            Some(f) => Some(OvlM { definition: Seq::empty(), implementation: f }),
            None => None,
        },
        Some(args) => s_find_overload(t.overloads, args),
    }
}

/// The first overload accepting the arguments, in declaration order.
pub open spec fn s_find_overload(ovls: Seq<OvlM>, args: Seq<ExprM>) -> Option<OvlM>
    decreases ovls,
{
    if ovls.len() == 0 {
        None
    } else if s_pattern_accepts(ovls[0].definition, args) {
        Some(ovls[0])
    } else {
        s_find_overload(ovls.drop_first(), args)
    }
}

/// The dispatch law: the selected overload is the first one in declaration
/// order whose pattern accepts the arguments — every overload before it
/// refuses them — and nothing is selected exactly when every stored
/// overload refuses them.
pub proof fn lemma_find_overload_first(ovls: Seq<OvlM>, args: Seq<ExprM>)
    ensures
        s_find_overload(ovls, args) is None <==> (forall|i: int|
            0 <= i < ovls.len() ==> !s_pattern_accepts((#[trigger] ovls[i]).definition, args)),
        s_find_overload(ovls, args) matches Some(o) ==> exists|i: int|
            {
                &&& 0 <= i < ovls.len()
                &&& o == #[trigger] ovls[i]
                &&& s_pattern_accepts(ovls[i].definition, args)
                &&& forall|j: int|
                    0 <= j < i ==> !s_pattern_accepts((#[trigger] ovls[j]).definition, args)
            },
    decreases ovls.len(),
{
    if ovls.len() > 0 {
        if s_pattern_accepts(ovls[0].definition, args) {
            if let Some(o) = s_find_overload(ovls, args) {
                assert({
                    &&& 0 <= 0 < ovls.len()
                    &&& o == ovls[0]
                    &&& s_pattern_accepts(ovls[0].definition, args)
                    &&& forall|j: int|
                        0 <= j < 0 ==> !s_pattern_accepts((#[trigger] ovls[j]).definition, args)
                });
            }
        } else {
            lemma_find_overload_first(ovls.drop_first(), args);
            let rest = ovls.drop_first();
            assert(forall|i: int| 0 <= i < rest.len() ==> rest[i] == ovls[i + 1]);
            if s_find_overload(ovls, args) is None {
                assert forall|i: int|
                    0 <= i < ovls.len() implies !s_pattern_accepts(
                    (#[trigger] ovls[i]).definition,
                    args,
                ) by {
                    if i > 0 {
                        assert(ovls[i] == rest[i - 1]);
                    }
                }
            } else {
                let o = s_find_overload(ovls, args)->Some_0;
                let i0 = choose|i: int|
                    {
                        &&& 0 <= i < rest.len()
                        &&& o == #[trigger] rest[i]
                        &&& s_pattern_accepts(rest[i].definition, args)
                        &&& forall|j: int|
                            0 <= j < i ==> !s_pattern_accepts(
                                (#[trigger] rest[j]).definition,
                                args,
                            )
                    };
                assert({
                    &&& 0 <= i0 + 1 < ovls.len()
                    &&& o == ovls[i0 + 1]
                    &&& s_pattern_accepts(ovls[i0 + 1].definition, args)
                    &&& forall|j: int|
                        0 <= j < i0 + 1 ==> !s_pattern_accepts(
                            (#[trigger] ovls[j]).definition,
                            args,
                        )
                }) by {
                    assert(ovls[i0 + 1] == rest[i0]);
                    assert forall|j: int|
                        0 <= j < i0 + 1 implies !s_pattern_accepts(
                        (#[trigger] ovls[j]).definition,
                        args,
                    ) by {
                        if j > 0 {
                            assert(ovls[j] == rest[j - 1]);
                        }
                    }
                }
            }
        }
    }
}

/// The index of the first overload with an interchangeable pattern.
pub open spec fn s_find_equiv(ovls: Seq<OvlM>, def: Seq<ExprM>) -> Option<int>
    decreases ovls,
{
    if ovls.len() == 0 {
        None
    } else if s_pattern_equiv(ovls[0].definition, def) {
        Some(0int)
    } else {
        match s_find_equiv(ovls.drop_first(), def) {
            Some(i) => Some(i + 1),
            None => None,
        }
    }
}

/// What `lookup_set` does to a table.
pub open spec fn s_lookup_set(t: TableM, def: Option<Seq<ExprM>>, f: FunM) -> TableM {
    match def {
        None => TableM { read: Some(f), overloads: t.overloads },
        Some(d) => match s_find_equiv(t.overloads, d) {
            Some(i) => TableM {
                read: t.read,
                overloads: t.overloads.update(i, OvlM { definition: d, implementation: f }),
            },
            None => TableM {
                read: t.read,
                overloads: t.overloads.push(OvlM { definition: d, implementation: f }),
            },
        },
    }
}

/// Finds the first overload accepting the given, already-evaluated
/// arguments.
pub fn lookup_func<'t>(ovls: &'t Vec<VmFunctionOverload>, args: &Vec<Expr>) -> (r: Option<
    (&'t Vec<Expr>, &'t VmFunction),
>)
    ensures
        s_find_overload(ovls_view(ovls@), exprs_view(args@)) == (match r {
            None => None::<OvlM>,
            Some((d, f)) => Some(
                OvlM { definition: exprs_view(d@), implementation: fun_view(*f) },
            ),
        }),
{
    proof {
        lemma_ovls_view(ovls@);
        assert(ovls@.skip(0) =~= ovls@);
    }
    let n = ovls.len();
    let mut i: usize = 0;
    while i < n
        invariant
            0 <= i <= n,
            n == ovls@.len(),
            s_find_overload(ovls_view(ovls@), exprs_view(args@)) == s_find_overload(
                ovls_view(ovls@.skip(i as int)),
                exprs_view(args@),
            ),
        decreases n - i,
    {
        proof {
            lemma_ovls_view(ovls@);
            lemma_ovls_view(ovls@.skip(i as int));
            lemma_ovls_view(ovls@.skip(i as int + 1));
            assert(ovls@.skip(i as int)[0] == ovls@[i as int]);
            assert(ovls@.skip(i as int).drop_first() =~= ovls@.skip(i as int + 1));
            assert(ovls_view(ovls@.skip(i as int)).drop_first() =~= ovls_view(
                ovls@.skip(i as int + 1),
            ));
        }
        if slots_accept(&ovls[i].definition, args) {
            return Some((&ovls[i].definition, &ovls[i].implementation));
        }
        i = i + 1;
    }
    proof {
        assert(ovls@.skip(n as int) =~= Seq::<VmFunctionOverload>::empty());
        assert(ovls_view(ovls@.skip(n as int)) =~= Seq::<OvlM>::empty());
    }
    None
}

/// Finds the position of the first overload whose pattern is
/// interchangeable with the given definition.
pub fn lookup_func_mut(ovls: &Vec<VmFunctionOverload>, def: &Vec<Expr>) -> (r: Option<usize>)
    ensures
        (match r {
            None => None::<int>,
            Some(i) => Some(i as int),
        }) == s_find_equiv(ovls_view(ovls@), exprs_view(def@)),
        r matches Some(i) ==> i < ovls@.len(),
{
    proof {
        lemma_ovls_view(ovls@);
        assert(ovls@.skip(0) =~= ovls@);
    }
    let n = ovls.len();
    let mut i: usize = 0;
    while i < n
        invariant
            0 <= i <= n,
            n == ovls@.len(),
            s_find_equiv(ovls_view(ovls@), exprs_view(def@)) == (match s_find_equiv(
                ovls_view(ovls@.skip(i as int)),
                exprs_view(def@),
            ) {
                None => None::<int>,
                Some(j) => Some(j + i),
            }),
        decreases n - i,
    {
        proof {
            lemma_ovls_view(ovls@);
            lemma_ovls_view(ovls@.skip(i as int));
            lemma_ovls_view(ovls@.skip(i as int + 1));
            assert(ovls@.skip(i as int)[0] == ovls@[i as int]);
            assert(ovls@.skip(i as int).drop_first() =~= ovls@.skip(i as int + 1));
            assert(ovls_view(ovls@.skip(i as int)).drop_first() =~= ovls_view(
                ovls@.skip(i as int + 1),
            ));
        }
        if slots_equiv(&ovls[i].definition, def) {
            return Some(i);
        }
        i = i + 1;
    }
    proof {
        assert(ovls@.skip(n as int) =~= Seq::<VmFunctionOverload>::empty());
        assert(ovls_view(ovls@.skip(n as int)) =~= Seq::<OvlM>::empty());
    }
    None
}

/// A deep copy of an expression list (a local convenience).
fn clone_exprs_local(ls: &Vec<Expr>) -> (r: Vec<Expr>)
    ensures
        exprs_view(r@) == exprs_view(ls@),
{
    crate::ast::clone_exprs(ls)
}

impl Clone for VmFunction {
    /// A deep copy; the copy has the same model as the original.
    fn clone(&self) -> (r: Self)
        ensures
            fun_view(r) == fun_view(*self),
    {
        match self {
            VmFunction::Virtual(e) => VmFunction::Virtual(clone_expr(e)),
            VmFunction::Native(n) => VmFunction::Native(*n),
            VmFunction::ByteCode(co) => VmFunction::ByteCode(co.clone()),
        }
    }
}

impl Clone for VmFunctionOverload {
    /// A deep copy; the copy has the same model as the original.
    fn clone(&self) -> (r: Self)
        ensures
            ovl_view(r) == ovl_view(*self),
    {
        VmFunctionOverload {
            definition: clone_exprs_local(&self.definition),
            implementation: self.implementation.clone(),
        }
    }
}

impl Clone for VmFunctionTable {
    /// A deep copy; the copy has the same model as the original.
    fn clone(&self) -> (r: Self)
        ensures
            r@ == self@,
    {
        let read = match &self.read {
            None => None,
            Some(f) => Some(f.clone()),
        };
        proof {
            lemma_ovls_view(self.overloads@);
        }
        let mut out: Vec<VmFunctionOverload> = Vec::new();
        let n = self.overloads.len();
        let mut i: usize = 0;
        while i < n
            invariant
                0 <= i <= n,
                n == self.overloads@.len(),
                out@.len() == i,
                forall|j: int| 0 <= j < i ==> ovl_view(out@[j]) == ovl_view(self.overloads@[j]),
            decreases n - i,
        {
            let c = self.overloads[i].clone();
            out.push(c);
            i = i + 1;
        }
        let r = VmFunctionTable { read, overloads: out };
        proof {
            lemma_ovls_view(self.overloads@);
            lemma_ovls_view(r.overloads@);
            assert(ovls_view(r.overloads@) =~= ovls_view(self.overloads@));
        }
        r
    }
}

/// The view of a name-to-table association list.
pub open spec fn tables_view(s: Seq<(String, VmFunctionTable)>) -> Seq<(Seq<char>, TableM)>
    decreases s,
{
    if s.len() == 0 {
        Seq::empty()
    } else {
        seq![(s[0].0@, s[0].1@)] + tables_view(s.drop_first())
    }
}

pub broadcast proof fn lemma_tables_view(s: Seq<(String, VmFunctionTable)>)
    ensures
        (#[trigger] tables_view(s)).len() == s.len(),
        forall|i: int|
            0 <= i < s.len() ==> tables_view(s)[i] == (s[i].0@, s[i].1@),
    decreases s.len(),
{
    if s.len() > 0 {
        lemma_tables_view(s.drop_first());
        assert forall|i: int|
            0 <= i < s.len() implies tables_view(s)[i] == (s[i].0@, s[i].1@) by {
            if i > 0 {
                assert(s.drop_first()[i - 1] == s[i]);
            }
        }
    }
}

/// The view of the frame stack.
pub open spec fn frames_view(s: Seq<Vec<(String, VmFunctionTable)>>) -> Seq<
    Seq<(Seq<char>, TableM)>,
>
    decreases s,
{
    if s.len() == 0 {
        Seq::empty()
    } else {
        seq![tables_view(s[0]@)] + frames_view(s.drop_first())
    }
}

pub broadcast proof fn lemma_frames_view(s: Seq<Vec<(String, VmFunctionTable)>>)
    ensures
        (#[trigger] frames_view(s)).len() == s.len(),
        forall|i: int| 0 <= i < s.len() ==> frames_view(s)[i] == tables_view(s[i]@),
    decreases s.len(),
{
    if s.len() > 0 {
        lemma_frames_view(s.drop_first());
        assert forall|i: int|
            0 <= i < s.len() implies frames_view(s)[i] == tables_view(s[i]@) by {
            if i > 0 {
                assert(s.drop_first()[i - 1] == s[i]);
            }
        }
    }
}

/// The view of the dependency adjacency list.
pub open spec fn deps_view(s: Seq<(String, Vec<String>)>) -> Seq<(Seq<char>, Seq<Seq<char>>)>
    decreases s,
{
    if s.len() == 0 {
        Seq::empty()
    } else {
        seq![(s[0].0@, s[0].1.deep_view())] + deps_view(s.drop_first())
    }
}

pub broadcast proof fn lemma_deps_view(s: Seq<(String, Vec<String>)>)
    ensures
        (#[trigger] deps_view(s)).len() == s.len(),
        forall|i: int|
            0 <= i < s.len() ==> deps_view(s)[i] == (s[i].0@, s[i].1.deep_view()),
    decreases s.len(),
{
    if s.len() > 0 {
        lemma_deps_view(s.drop_first());
        assert forall|i: int|
            0 <= i < s.len() implies deps_view(s)[i] == (s[i].0@, s[i].1.deep_view()) by {
            if i > 0 {
                assert(s.drop_first()[i - 1] == s[i]);
            }
        }
    }
}

/// The ghost mirror of the whole environment.
pub struct CtxM {
    pub map: Seq<(Seq<char>, TableM)>,
    pub stack: Seq<Seq<(Seq<char>, TableM)>>,
    pub deps: Seq<(Seq<char>, Seq<Seq<char>>)>,
}

/// The first table stored under a name in an association list.
pub open spec fn tbl_get(m: Seq<(Seq<char>, TableM)>, name: Seq<char>) -> Option<TableM>
    decreases m,
{
    if m.len() == 0 {
        None
    } else if m[0].0 == name {
        Some(m[0].1)
    } else {
        tbl_get(m.drop_first(), name)
    }
}

/// Replaces the first entry under a name, or appends a new one.
pub open spec fn tbl_set(m: Seq<(Seq<char>, TableM)>, name: Seq<char>, t: TableM) -> Seq<
    (Seq<char>, TableM),
>
    decreases m,
{
    if m.len() == 0 {
        seq![(name, t)]
    } else if m[0].0 == name {
        seq![(name, t)] + m.drop_first()
    } else {
        seq![m[0]] + tbl_set(m.drop_first(), name, t)
    }
}

/// What a context lookup sees: the innermost frame shadows the globals.
pub open spec fn ctx_get(c: CtxM, name: Seq<char>) -> Option<TableM> {
    if c.stack.len() > 0 {
        match tbl_get(c.stack.last(), name) {
            Some(t) => Some(t),
            None => tbl_get(c.map, name),
        }
    } else {
        tbl_get(c.map, name)
    }
}

/// The mutable environment: global tables, the call stack, and the
/// dependency graph of bare variable bindings.
#[derive(Debug)]
pub struct VmContext {
    map: Vec<(String, VmFunctionTable)>,
    stack: Vec<Vec<(String, VmFunctionTable)>>,
    deps: Vec<(String, Vec<String>)>,
}

impl VmContext {
    /// The model of the environment.
    pub closed spec fn view(&self) -> CtxM {
        CtxM {
            map: tables_view(self.map@),
            stack: frames_view(self.stack@),
            deps: deps_view(self.deps@),
        }
    }

    /// An empty environment.
    pub fn new() -> (r: VmContext)
        ensures
            r@ == (CtxM {
                map: Seq::<(Seq<char>, TableM)>::empty(),
                stack: Seq::<Seq<(Seq<char>, TableM)>>::empty(),
                deps: Seq::<(Seq<char>, Seq<Seq<char>>)>::empty(),
            }),
    {
        let r = VmContext { map: Vec::new(), stack: Vec::new(), deps: Vec::new() };
        proof {
            assert(r@.map =~= Seq::<(Seq<char>, TableM)>::empty());
            assert(r@.stack =~= Seq::<Seq<(Seq<char>, TableM)>>::empty());
            assert(r@.deps =~= Seq::<(Seq<char>, Seq<Seq<char>>)>::empty());
        }
        r
    }

    /// Pushes one frame, unless the stack is at its depth bound.
    pub fn push_frame(&mut self, frame: Vec<(String, VmFunctionTable)>) -> (r: Result<(), Error>)
        ensures
            old(self)@.stack.len() + 1 < MAX_STACK as int ==> r is Ok && final(self)@ == (CtxM {
                map: old(self)@.map,
                stack: old(self)@.stack.push(tables_view(frame@)),
                deps: old(self)@.deps,
            }),
            old(self)@.stack.len() + 1 >= MAX_STACK as int ==> r
                == Err::<(), Error>(Error::StackDepthExceeded) && final(self)@ == old(self)@,
    {
        proof {
            lemma_frames_view(self.stack@);
        }
        if self.stack.len() >= MAX_STACK - 1 {
            return Err(Error::StackDepthExceeded);
        }
        self.stack.push(frame);
        proof {
            lemma_frames_view(self.stack@);
            lemma_frames_view(old(self).stack@);
            assert(self.stack@.drop_last() =~= old(self).stack@);
            assert(frames_view(self.stack@) =~= frames_view(old(self).stack@).push(
                tables_view(frame@),
            ));
        }
        Ok(())
    }

    /// Pops one frame; reports whether one was present.
    pub fn pop_frame(&mut self) -> (r: bool)
        ensures
            r == (old(self)@.stack.len() > 0),
            r ==> final(self)@ == (CtxM {
                map: old(self)@.map,
                stack: old(self)@.stack.drop_last(),
                deps: old(self)@.deps,
            }),
            !r ==> final(self)@ == old(self)@,
    {
        proof {
            lemma_frames_view(self.stack@);
        }
        match self.stack.pop() {
            Some(_) => {
                proof {
                    lemma_frames_view(self.stack@);
                    lemma_frames_view(old(self).stack@);
                    assert(frames_view(self.stack@) =~= frames_view(
                        old(self).stack@,
                    ).drop_last());
                }
                true
            },
            None => {
                proof {
                    assert(old(self).stack@.len() == 0);
                }
                false
            },
        }
    }

    /// The table a name resolves to: the innermost frame first, then the
    /// global map. The returned table is a copy equal in the model.
    pub fn get(&self, name: &String) -> (r: Option<VmFunctionTable>)
        ensures
            (match r {
                None => None::<TableM>,
                Some(t) => Some(t@),
            }) == ctx_get(self@, name@),
    {
        proof {
            lemma_frames_view(self.stack@);
        }
        if self.stack.len() > 0 {
            let top = &self.stack[self.stack.len() - 1];
            proof {
                assert(frames_view(self.stack@)[self.stack@.len() - 1] == tables_view(top@));
                assert(self@.stack.last() == tables_view(top@));
            }
            match find_table(top, name) {
                Some(t) => {
                    return Some(t);
                },
                None => {},
            }
        }
        find_table(&self.map, name)
    }

    /// Replaces a name's whole table.
    pub fn set(&mut self, name: &String, entry: VmFunctionTable)
        ensures
            final(self)@ == (CtxM {
                map: tbl_set(old(self)@.map, name@, entry@),
                stack: old(self)@.stack,
                deps: old(self)@.deps,
            }),
    {
        set_table(&mut self.map, name, entry);
    }
}

/// The names an expression refers to: bare references and call targets,
/// collected over the whole tree. The target of a nested assignment is
/// being written, not read, and contributes nothing; only its stored body
/// does.
pub open spec fn s_idents(e: ExprM) -> Seq<Seq<char>>
    decreases ht(e),
    via s_idents_decreases
{
    match e {
        ExprM::Value(ValM::Tuple(ls)) => s_idents_list(ls),
        ExprM::Value(ValM::SetOf(ls)) => s_idents_list(ls),
        ExprM::Value(_) => Seq::empty(),
        ExprM::Comp(op, l, r) => if op == Operator::Store {
            s_idents(*r)
        } else {
            s_idents(*l) + s_idents(*r)
        },
        ExprM::Ref(n) => seq![n],
        ExprM::Func(n, None) => seq![n],
        ExprM::Func(n, Some(args)) => seq![n] + s_idents_list(args),
    }
}

pub open spec fn s_idents_list(ls: Seq<ExprM>) -> Seq<Seq<char>>
    decreases ht_list(ls),
    via s_idents_list_decreases
{
    if ls.len() == 0 {
        Seq::empty()
    } else {
        s_idents(ls[0]) + s_idents_list(ls.drop_first())
    }
}

#[via_fn]
proof fn s_idents_decreases(e: ExprM) {
}

#[via_fn]
proof fn s_idents_list_decreases(ls: Seq<ExprM>) {
    if ls.len() > 0 {
        lemma_ht_list_elem(ls, 0);
        crate::ast::lemma_ht_list_tail(ls);
    }
}

/// Collects the referenced names of an expression.
pub fn idents(e: &Expr) -> (r: Vec<String>)
    ensures
        r.deep_view() == s_idents(expr_view(*e)),
    decreases ht(expr_view(*e)),
{
    let mut out: Vec<String> = Vec::new();
    proof {
        assert(out.deep_view() =~= Seq::<Seq<char>>::empty());
    }
    match e {
        Expr::Value(v) => match v {
            Value::Tuple(ls) => {
                proof {
                    assert(ht(expr_view(*e)) == 2 + ht_list(exprs_view(ls@)));
                }
                idents_list(ls, &mut out);
            },
            Value::SetOf(ls) => {
                proof {
                    assert(ht(expr_view(*e)) == 2 + ht_list(exprs_view(ls@)));
                }
                idents_list(ls, &mut out);
            },
            _ => {},
        },
        Expr::Comp(op, l, r) => {
            if *op == Operator::Store {
                let b = idents(r);
                proof {
                    assert(out.deep_view() + b.deep_view() =~= b.deep_view());
                }
                append_names(&mut out, b);
            } else {
                let mut a = idents(l);
                let b = idents(r);
                append_names(&mut a, b);
                proof {
                    assert(out.deep_view() + a.deep_view() =~= a.deep_view());
                }
                append_names(&mut out, a);
            }
        },
        Expr::Ref(n) => {
            out.push(n.clone());
            proof {
                assert(out.deep_view() =~= seq![n@]);
            }
        },
        Expr::Func(n, maybe_args) => {
            out.push(n.clone());
            proof {
                assert(out.deep_view() =~= seq![n@]);
            }
            match maybe_args {
                None => {},
                Some(args) => {
                    proof {
                        assert(ht(expr_view(*e)) == 2 + ht_list(exprs_view(args@)));
                    }
                    idents_list(args, &mut out);
                },
            }
        },
    }
    out
}

/// Appends the referenced names of each element to `out`.
fn idents_list(ls: &Vec<Expr>, out: &mut Vec<String>)
    ensures
        final(out).deep_view() == old(out).deep_view() + s_idents_list(exprs_view(ls@)),
    decreases ht_list(exprs_view(ls@)),
{
    proof {
        lemma_exprs_view(ls@);
        assert(ls@.skip(0) =~= ls@);
    }
    let n = ls.len();
    let mut i: usize = 0;
    while i < n
        invariant
            0 <= i <= n,
            n == ls@.len(),
            out.deep_view() + s_idents_list(exprs_view(ls@.skip(i as int))) == old(
                out,
            ).deep_view() + s_idents_list(exprs_view(ls@)),
        decreases n - i,
    {
        proof {
            lemma_exprs_view(ls@);
            lemma_exprs_view(ls@.skip(i as int));
            lemma_exprs_view(ls@.skip(i as int + 1));
            lemma_ht_list_elem(exprs_view(ls@), i as int);
            assert(ls@.skip(i as int)[0] == ls@[i as int]);
            assert(ls@.skip(i as int).drop_first() =~= ls@.skip(i as int + 1));
            assert(exprs_view(ls@.skip(i as int)).drop_first() =~= exprs_view(
                ls@.skip(i as int + 1),
            ));
        }
        let mut part = idents(&ls[i]);
        let ghost before = out.deep_view();
        append_names(out, part);
        proof {
            assert(before + (s_idents(expr_view(ls@[i as int])) + s_idents_list(
                exprs_view(ls@.skip(i as int + 1)),
            )) =~= (before + s_idents(expr_view(ls@[i as int]))) + s_idents_list(
                exprs_view(ls@.skip(i as int + 1)),
            ));
        }
        i = i + 1;
    }
    proof {
        assert(ls@.skip(n as int) =~= Seq::<Expr>::empty());
        assert(exprs_view(ls@.skip(n as int)) =~= Seq::<ExprM>::empty());
        assert(out.deep_view() + Seq::<Seq<char>>::empty() =~= out.deep_view());
        assert(old(out).deep_view() + s_idents_list(exprs_view(ls@)) =~= out.deep_view());
    }
}

/// Appends all names of `more` to `out`.
fn append_names(out: &mut Vec<String>, more: Vec<String>)
    ensures
        final(out).deep_view() == old(out).deep_view() + more.deep_view(),
{
    let ghost whole = more.deep_view();
    let m = more.len();
    let mut k: usize = 0;
    proof {
        assert(out.deep_view() + whole.take(0) =~= out.deep_view());
    }
    while k < m
        invariant
            0 <= k <= m,
            m == more@.len(),
            whole == more.deep_view(),
            out.deep_view() == old(out).deep_view() + whole.take(k as int),
        decreases m - k,
    {
        let name = more[k].clone();
        out.push(name);
        proof {
            assert(more.deep_view()[k as int] == more@[k as int]@);
            assert(whole.take(k as int + 1) =~= whole.take(k as int).push(whole[k as int]));
            assert(old(out).deep_view() + whole.take(k as int + 1) =~= (old(out).deep_view()
                + whole.take(k as int)).push(whole[k as int]));
        }
        k = k + 1;
    }
    proof {
        assert(whole.take(m as int) =~= whole);
        assert(out.deep_view() =~= old(out).deep_view() + whole);
    }
}

/// The first dependency list stored under a name.
pub open spec fn deps_get(d: Seq<(Seq<char>, Seq<Seq<char>>)>, name: Seq<char>) -> Option<
    Seq<Seq<char>>,
>
    decreases d,
{
    if d.len() == 0 {
        None
    } else if d[0].0 == name {
        Some(d[0].1)
    } else {
        deps_get(d.drop_first(), name)
    }
}

/// Replaces the first dependency entry under a name, or appends one.
pub open spec fn deps_set(
    d: Seq<(Seq<char>, Seq<Seq<char>>)>,
    name: Seq<char>,
    ids: Seq<Seq<char>>,
) -> Seq<(Seq<char>, Seq<Seq<char>>)>
    decreases d,
{
    if d.len() == 0 {
        seq![(name, ids)]
    } else if d[0].0 == name {
        seq![(name, ids)] + d.drop_first()
    } else {
        seq![d[0]] + deps_set(d.drop_first(), name, ids)
    }
}

/// Whether `target` is reachable from `from` through at most `fuel` edges of
/// the dependency graph (a committed graph is acyclic, so a fuel of its size
/// covers every path).
pub open spec fn s_reach(
    d: Seq<(Seq<char>, Seq<Seq<char>>)>,
    from: Seq<char>,
    target: Seq<char>,
    fuel: nat,
) -> bool
    decreases fuel,
{
    if from == target {
        true
    } else if fuel == 0 {
        false
    } else {
        match deps_get(d, from) {
            Some(list) => exists|i: int|
                0 <= i < list.len() && s_reach(d, #[trigger] list[i], target, (fuel - 1) as nat),
            None => false,
        }
    }
}

/// Whether any of the given names reaches `target`.
pub open spec fn s_any_reaches(
    d: Seq<(Seq<char>, Seq<Seq<char>>)>,
    ids: Seq<Seq<char>>,
    target: Seq<char>,
) -> bool {
    exists|i: int|
        0 <= i < ids.len() && s_reach(d, #[trigger] ids[i], target, (d.len() + 1) as nat)
}

/// Finds the first dependency list stored under a name.
fn find_deps<'d>(d: &'d Vec<(String, Vec<String>)>, name: &String) -> (r: Option<
    &'d Vec<String>,
>)
    ensures
        deps_get(deps_view(d@), name@) == (match r {
            None => None::<Seq<Seq<char>>>,
            Some(list) => Some(list.deep_view()),
        }),
{
    proof {
        lemma_deps_view(d@);
        assert(d@.skip(0) =~= d@);
    }
    let n = d.len();
    let mut i: usize = 0;
    while i < n
        invariant
            0 <= i <= n,
            n == d@.len(),
            deps_get(deps_view(d@), name@) == deps_get(deps_view(d@.skip(i as int)), name@),
        decreases n - i,
    {
        proof {
            lemma_deps_view(d@);
            lemma_deps_view(d@.skip(i as int));
            lemma_deps_view(d@.skip(i as int + 1));
            assert(d@.skip(i as int)[0] == d@[i as int]);
            assert(d@.skip(i as int).drop_first() =~= d@.skip(i as int + 1));
            assert(deps_view(d@.skip(i as int)).drop_first() =~= deps_view(
                d@.skip(i as int + 1),
            ));
        }
        if d[i].0 == *name {
            return Some(&d[i].1);
        }
        i = i + 1;
    }
    proof {
        assert(d@.skip(n as int) =~= Seq::<(String, Vec<String>)>::empty());
        assert(deps_view(d@.skip(n as int)) =~= Seq::<(Seq<char>, Seq<Seq<char>>)>::empty());
    }
    None
}

/// Whether `target` is reachable from `from` within `fuel` steps.
fn reach(d: &Vec<(String, Vec<String>)>, from: &String, target: &String, fuel: u128) -> (r: bool)
    ensures
        r == s_reach(deps_view(d@), from@, target@, fuel as nat),
    decreases fuel,
{
    if *from == *target {
        proof {
            reveal_with_fuel(s_reach, 2);
            assert(s_reach(deps_view(d@), from@, target@, fuel as nat));
        }
        return true;
    }
    if fuel == 0 {
        proof {
            reveal_with_fuel(s_reach, 2);
        }
        return false;
    }
    match find_deps(d, from) {
        None => {
            proof {
                reveal_with_fuel(s_reach, 2);
            }
            false
        },
        Some(list) => {
            let n = list.len();
            let mut i: usize = 0;
            while i < n
                invariant
                    0 <= i <= n,
                    n == list@.len(),
                    fuel >= 1,
                    from@ != target@,
                    deps_get(deps_view(d@), from@) == Some(list.deep_view()),
                    forall|j: int|
                        0 <= j < i ==> !s_reach(
                            deps_view(d@),
                            #[trigger] list.deep_view()[j],
                            target@,
                            (fuel - 1) as nat,
                        ),
                decreases n - i,
            {
                proof {
                    assert(list.deep_view()[i as int] == list@[i as int]@);
                }
                if reach(d, &list[i], target, fuel - 1) {
                    proof {
                        let dm = deps_view(d@);
                        let speclist = deps_get(dm, from@)->Some_0;
                        assert(speclist == list.deep_view());
                        assert(s_reach(dm, speclist[i as int], target@, (fuel as nat - 1) as nat)
                            == s_reach(dm, list.deep_view()[i as int], target@, (fuel - 1) as nat));
                        assert(0 <= i as int && (i as int) < speclist.len() && s_reach(
                            dm,
                            speclist[i as int],
                            target@,
                            (fuel as nat - 1) as nat,
                        ));
                        assert(s_reach(dm, from@, target@, fuel as nat)) by {
                            reveal_with_fuel(s_reach, 2);
                        }
                    }
                    return true;
                }
                i = i + 1;
            }
            proof {
                reveal_with_fuel(s_reach, 2);
                assert(list.deep_view().len() == list@.len());
            }
            false
        },
    }
}

/// Whether any of the given names reaches `target` within the graph's own
/// size as a bound.
fn any_reaches(d: &Vec<(String, Vec<String>)>, ids: &Vec<String>, target: &String) -> (r: bool)
    ensures
        r == s_any_reaches(deps_view(d@), ids.deep_view(), target@),
{
    proof {
        lemma_deps_view(d@);
    }
    let fuel: u128 = d.len() as u128 + 1;
    proof {
        assert(deps_view(d@).len() == d@.len());
    }
    let n = ids.len();
    let mut i: usize = 0;
    while i < n
        invariant
            0 <= i <= n,
            n == ids@.len(),
            fuel as nat == (deps_view(d@).len() + 1) as nat,
            forall|j: int|
                0 <= j < i ==> !s_reach(
                    deps_view(d@),
                    #[trigger] ids.deep_view()[j],
                    target@,
                    (deps_view(d@).len() + 1) as nat,
                ),
        decreases n - i,
    {
        proof {
            assert(ids.deep_view()[i as int] == ids@[i as int]@);
        }
        if reach(d, &ids[i], target, fuel) {
            return true;
        }
        i = i + 1;
    }
    proof {
        assert(ids.deep_view().len() == ids@.len());
    }
    false
}

/// What storing an implementation under a name and pattern does to the
/// global map: the existing table (or an empty one) gains or replaces the
/// entry.
pub open spec fn s_set_impl(
    ctx: CtxM,
    name: Seq<char>,
    params: Option<Seq<ExprM>>,
    f: FunM,
) -> CtxM {
    let t0 = match tbl_get(ctx.map, name) {
        Some(t) => t,
        None => TableM { read: None, overloads: Seq::empty() },
    };
    let t1 = s_lookup_set(t0, params, f);
    CtxM { map: tbl_set(ctx.map, name, t1), stack: ctx.stack, deps: ctx.deps }
}

/// What a user-level definition does: the body is optimized first; a
/// pattern must be made of literals and binders only; a bare variable
/// binding is refused when its body's names reach the variable itself
/// through the dependency graph, and otherwise updates that graph.
pub open spec fn s_set_virtual(
    ctx: CtxM,
    name: Seq<char>,
    params: Option<Seq<ExprM>>,
    body: ExprM,
) -> (Result<(), ErrM>, CtxM) {
    let ob = s_opt(body);
    match params {
        Some(ps) => if !s_pattern_valid(ps) {
            (Err(ErrM::AssignmentTargetInvalid), ctx)
        } else {
            (Ok(()), s_set_impl(ctx, name, Some(ps), FunM::Virtual(ob)))
        },
        None => {
            let ids = s_idents(ob);
            if s_any_reaches(ctx.deps, ids, name) {
                (Err(ErrM::CyclicAssignment(name)), ctx)
            } else {
                let c1 = s_set_impl(ctx, name, None, FunM::Virtual(ob));
                (
                    Ok(()),
                    CtxM { map: c1.map, stack: ctx.stack, deps: deps_set(ctx.deps, name, ids) },
                )
            }
        },
    }
}

/// Like `s_set_virtual`, but stores a compiled unit and does not optimize.
pub open spec fn s_set_bytecode(
    ctx: CtxM,
    name: Seq<char>,
    params: Option<Seq<ExprM>>,
    co: Seq<InstrM>,
) -> (Result<(), ErrM>, CtxM) {
    match params {
        Some(ps) => if !s_pattern_valid(ps) {
            (Err(ErrM::AssignmentTargetInvalid), ctx)
        } else {
            (Ok(()), s_set_impl(ctx, name, Some(ps), FunM::ByteCode(co)))
        },
        None => (Ok(()), s_set_impl(ctx, name, None, FunM::ByteCode(co))),
    }
}

impl VmContext {
    /// Stores an implementation under a name and pattern in the global map.
    fn set_impl(&mut self, name: &String, params: &Option<Vec<Expr>>, f: VmFunction)
        ensures
            final(self)@ == s_set_impl(old(self)@, name@, params_opt_view(*params), fun_view(f)),
    {
        let mut table = match find_table(&self.map, name) {
            Some(t) => t,
            None => VmFunctionTable::new(),
        };
        proof {
            assert(match tbl_get(tables_view(self.map@), name@) {
                Some(t) => table@ == t,
                None => table@ == (TableM { read: None::<FunM>, overloads: Seq::<OvlM>::empty() }),
            });
        }
        table.lookup_set(params, f);
        set_table(&mut self.map, name, table);
    }

    /// Stores one user definition: the pattern (or the bare-read slot) gains
    /// the optimized body. A bare variable binding that would reach itself
    /// through other variables is refused with `CyclicAssignment`, leaving
    /// the environment unchanged.
    pub fn set_virtual(&mut self, name: &String, params: &Option<Vec<Expr>>, expr: Expr) -> (r:
        Result<(), Error>)
        ensures
            ({
                let (rm, cm) = s_set_virtual(
                    old(self)@,
                    name@,
                    params_opt_view(*params),
                    expr_view(expr),
                );
                &&& (match r {
                    Ok(()) => rm is Ok,
                    Err(e) => rm == Err::<(), ErrM>(e.deep_view()),
                })
                &&& final(self)@ == cm
            }),
    {
        let ob = optimize(&expr);
        match params {
            Some(ps) => {
                if !slots_valid(ps) {
                    return Err(Error::AssignmentTargetInvalid);
                }
                self.set_impl(name, params, VmFunction::Virtual(ob));
                Ok(())
            },
            None => {
                let ids = idents(&ob);
                if any_reaches(&self.deps, &ids, name) {
                    return Err(Error::CyclicAssignment(name.clone()));
                }
                self.set_impl(name, &None, VmFunction::Virtual(ob));
                set_deps(&mut self.deps, name, ids);
                Ok(())
            },
        }
    }

    /// Stores one compiled definition under a name and pattern.
    pub fn set_bytecode(&mut self, name: &String, params: &Option<Vec<Expr>>, co: CodeObject) -> (
        r: Result<(), Error>)
        ensures
            ({
                let (rm, cm) = s_set_bytecode(
                    old(self)@,
                    name@,
                    params_opt_view(*params),
                    code_view(co.code@),
                );
                &&& (match r {
                    Ok(()) => rm is Ok,
                    Err(e) => rm == Err::<(), ErrM>(e.deep_view()),
                })
                &&& final(self)@ == cm
            }),
    {
        match params {
            Some(ps) => {
                if !slots_valid(ps) {
                    return Err(Error::AssignmentTargetInvalid);
                }
                self.set_impl(name, params, VmFunction::ByteCode(co));
                Ok(())
            },
            None => {
                self.set_impl(name, &None, VmFunction::ByteCode(co));
                Ok(())
            },
        }
    }
}

/// One native overload pattern: `k` binder slots named `x0`, `x1`, ...
pub open spec fn s_binders(k: nat) -> Seq<ExprM> {
    if k == 0 {
        Seq::empty()
    } else if k == 1 {
        seq![ExprM::Ref("x0"@)]
    } else if k == 2 {
        seq![ExprM::Ref("x0"@), ExprM::Ref("x1"@)]
    } else {
        seq![ExprM::Ref("x0"@), ExprM::Ref("x1"@), ExprM::Ref("x2"@)]
    }
}

/// A table holding one native read slot.
pub open spec fn s_native_read(n: Native) -> TableM {
    TableM { read: Some(FunM::Native(n)), overloads: Seq::empty() }
}

/// A table holding native overloads of the given arities.
pub open spec fn s_native_ovls(n: Native, arities: Seq<nat>) -> TableM {
    TableM {
        read: None,
        overloads: arities.map_values(
            |k: nat| OvlM { definition: s_binders(k), implementation: FunM::Native(n) },
        ),
    }
}

/// The standard context: the constants and built-in functions every fresh
/// session starts from.
pub open spec fn s_stdlib() -> CtxM {
    CtxM {
        map: seq![
            ("pi"@, s_native_read(Native::Pi)),
            ("e"@, s_native_read(Native::Euler)),
            ("if"@, s_native_ovls(Native::If, seq![3nat])),
            ("sqrt"@, s_native_ovls(Native::Sqrt, seq![1nat, 2nat])),
            ("log"@, s_native_ovls(Native::Log, seq![1nat, 2nat])),
            ("assert"@, s_native_ovls(Native::Assert, seq![1nat])),
        ],
        stack: Seq::empty(),
        deps: Seq::empty(),
    }
}

impl VmContext {
    /// The standard context, pre-populated with `pi`, `e`, `if`, `sqrt`,
    /// `log` and `assert`.
    pub fn stdlib() -> (r: VmContext)
        ensures
            r@ == s_stdlib(),
    {
        let pi_t = VmFunctionTable { read: Some(VmFunction::Native(Native::Pi)), overloads: Vec::new() };
        let e_t = VmFunctionTable {
            read: Some(VmFunction::Native(Native::Euler)),
            overloads: Vec::new(),
        };
        let if_t = VmFunctionTable {
            read: None,
            overloads: native_arity_ovls(Native::If, false),
        };
        let sqrt_t = VmFunctionTable {
            read: None,
            overloads: native_arity_ovls(Native::Sqrt, true),
        };
        let log_t = VmFunctionTable {
            read: None,
            overloads: native_arity_ovls(Native::Log, true),
        };
        let assert_t = VmFunctionTable {
            read: None,
            overloads: native_arity_ovls(Native::Assert, false),
        };
        let mut map: Vec<(String, VmFunctionTable)> = Vec::new();
        map.push((String::from_str("pi"), pi_t));
        map.push((String::from_str("e"), e_t));
        map.push((String::from_str("if"), if_t));
        map.push((String::from_str("sqrt"), sqrt_t));
        map.push((String::from_str("log"), log_t));
        map.push((String::from_str("assert"), assert_t));
        let r = VmContext { map, stack: Vec::new(), deps: Vec::new() };
        proof {
            lemma_tables_view(r.map@);
            assert(r@.map =~= s_stdlib().map);
            assert(r@.stack =~= Seq::<Seq<(Seq<char>, TableM)>>::empty());
            assert(r@.deps =~= Seq::<(Seq<char>, Seq<Seq<char>>)>::empty());
        }
        r
    }
}

/// The overloads of one built-in: a single-binder pattern for `if` (three
/// binders) and `assert` (one binder), or the one- and two-binder patterns
/// of `sqrt` and `log`.
fn native_arity_ovls(n: Native, two: bool) -> (r: Vec<VmFunctionOverload>)
    requires
        two ==> n != Native::If,
    ensures
        n == Native::If && !two ==> ovls_view(r@) == s_native_ovls(n, seq![3nat]).overloads,
        n == Native::Assert && !two ==> ovls_view(r@) == s_native_ovls(n, seq![1nat]).overloads,
        two ==> ovls_view(r@) == s_native_ovls(n, seq![1nat, 2nat]).overloads,
{
    let mut out: Vec<VmFunctionOverload> = Vec::new();
    match n {
        Native::If => {
            let mut def: Vec<Expr> = Vec::new();
            def.push(Expr::Ref(String::from_str("x0")));
            def.push(Expr::Ref(String::from_str("x1")));
            def.push(Expr::Ref(String::from_str("x2")));
            proof {
                lemma_exprs_view(def@);
                assert(exprs_view(def@) =~= s_binders(3));
            }
            out.push(VmFunctionOverload { definition: def, implementation: VmFunction::Native(n) });
        },
        _ => {
            let mut def1: Vec<Expr> = Vec::new();
            def1.push(Expr::Ref(String::from_str("x0")));
            proof {
                lemma_exprs_view(def1@);
                assert(exprs_view(def1@) =~= s_binders(1));
            }
            out.push(
                VmFunctionOverload { definition: def1, implementation: VmFunction::Native(n) },
            );
            if two {
                let mut def2: Vec<Expr> = Vec::new();
                def2.push(Expr::Ref(String::from_str("x0")));
                def2.push(Expr::Ref(String::from_str("x1")));
                proof {
                    lemma_exprs_view(def2@);
                    assert(exprs_view(def2@) =~= s_binders(2));
                }
                out.push(
                    VmFunctionOverload { definition: def2, implementation: VmFunction::Native(n) },
                );
            }
        },
    }
    proof {
        lemma_ovls_view(out@);
        if two {
            let rhs = s_native_ovls(n, seq![1nat, 2nat]).overloads;
            assert(rhs.len() == 2);
            assert(rhs[0] == (OvlM { definition: s_binders(1), implementation: FunM::Native(n) }));
            assert(rhs[1] == (OvlM { definition: s_binders(2), implementation: FunM::Native(n) }));
            assert(ovls_view(out@).len() == 2);
            assert(ovls_view(out@)[0] == ovl_view(out@[0]));
            assert(ovls_view(out@)[1] == ovl_view(out@[1]));
            assert(ovl_view(out@[0]).definition == s_binders(1));
            assert(ovl_view(out@[1]).definition == s_binders(2));
            assert(ovl_view(out@[0]).implementation == FunM::Native(n));
            assert(ovl_view(out@[1]).implementation == FunM::Native(n));
            assert(ovls_view(out@) =~= s_native_ovls(n, seq![1nat, 2nat]).overloads);
        } else {
            match n {
                Native::If => {
                    assert(ovls_view(out@) =~= s_native_ovls(n, seq![3nat]).overloads);
                },
                _ => {
                    assert(ovls_view(out@) =~= s_native_ovls(n, seq![1nat]).overloads);
                },
            }
        }
    }
    out
}

/// Replaces the first dependency entry under a name, or appends one.
fn set_deps(d: &mut Vec<(String, Vec<String>)>, name: &String, ids: Vec<String>)
    ensures
        deps_view(final(d)@) == deps_set(deps_view(old(d)@), name@, ids.deep_view()),
{
    proof {
        lemma_deps_view(d@);
        assert(d@.skip(0) =~= d@);
    }
    let ghost d0 = d@;
    let n = d.len();
    let mut i: usize = 0;
    while i < n
        invariant
            0 <= i <= n,
            n == d0.len(),
            d@ == d0,
            d0 == old(d)@,
            ids.deep_view() == ids.deep_view(),
            deps_set(deps_view(d0), name@, ids.deep_view()) == deps_view(d0.take(i as int))
                + deps_set(deps_view(d0.skip(i as int)), name@, ids.deep_view()),
        decreases n - i,
    {
        proof {
            lemma_deps_view(d0);
            lemma_deps_view(d0.skip(i as int));
            lemma_deps_view(d0.skip(i as int + 1));
            lemma_deps_view(d0.take(i as int));
            lemma_deps_view(d0.take(i as int + 1));
            assert(d0.skip(i as int)[0] == d0[i as int]);
            assert(d0.skip(i as int).drop_first() =~= d0.skip(i as int + 1));
            assert(deps_view(d0.skip(i as int)).drop_first() =~= deps_view(
                d0.skip(i as int + 1),
            ));
        }
        if d[i].0 == *name {
            let nm = name.clone();
            d.set(i, (nm, ids));
            proof {
                lemma_deps_view(d@);
                lemma_deps_view(d0.take(i as int));
                lemma_deps_view(d0.skip(i as int + 1));
                assert(deps_set(deps_view(d0.skip(i as int)), name@, d@[i as int].1.deep_view())
                    =~= seq![(name@, d@[i as int].1.deep_view())] + deps_view(
                    d0.skip(i as int + 1),
                ));
                assert(deps_view(d@) =~= deps_view(d0.take(i as int)) + (seq![
                    (name@, d@[i as int].1.deep_view()),
                ] + deps_view(d0.skip(i as int + 1))));
            }
            return;
        }
        proof {
            assert(d0.take(i as int + 1).drop_last() =~= d0.take(i as int));
            assert(deps_view(d0.take(i as int + 1)) =~= deps_view(d0.take(i as int)).push(
                (d0[i as int].0@, d0[i as int].1.deep_view()),
            )) by {
                lemma_deps_view(d0.take(i as int + 1));
                lemma_deps_view(d0.take(i as int));
            }
            assert(deps_view(d0.take(i as int)) + deps_set(
                deps_view(d0.skip(i as int)),
                name@,
                ids.deep_view(),
            ) =~= deps_view(d0.take(i as int + 1)) + deps_set(
                deps_view(d0.skip(i as int + 1)),
                name@,
                ids.deep_view(),
            ));
        }
        i = i + 1;
    }
    let nm = name.clone();
    let ghost idsv = ids.deep_view();
    d.push((nm, ids));
    proof {
        lemma_deps_view(d@);
        lemma_deps_view(d0);
        assert(d@.drop_last() =~= d0);
        assert(deps_view(d@) =~= deps_view(d0).push((name@, idsv)));
        assert(d0.skip(n as int) =~= Seq::<(String, Vec<String>)>::empty());
        assert(deps_view(d0.skip(n as int)) =~= Seq::<(Seq<char>, Seq<Seq<char>>)>::empty());
        assert(deps_set(deps_view(d0.skip(n as int)), name@, idsv) =~= seq![(name@, idsv)]);
        assert(d0.take(n as int) =~= d0);
        assert(deps_view(d0) + seq![(name@, idsv)] =~= deps_view(d0).push((name@, idsv)));
    }
}

/// Finds the first table stored under a name; the result is a copy equal in
/// the model.
fn find_table(m: &Vec<(String, VmFunctionTable)>, name: &String) -> (r: Option<VmFunctionTable>)
    ensures
        (match r {
            None => None::<TableM>,
            Some(t) => Some(t@),
        }) == tbl_get(tables_view(m@), name@),
{
    proof {
        lemma_tables_view(m@);
        assert(m@.skip(0) =~= m@);
    }
    let n = m.len();
    let mut i: usize = 0;
    while i < n
        invariant
            0 <= i <= n,
            n == m@.len(),
            tbl_get(tables_view(m@), name@) == tbl_get(
                tables_view(m@.skip(i as int)),
                name@,
            ),
        decreases n - i,
    {
        proof {
            lemma_tables_view(m@);
            lemma_tables_view(m@.skip(i as int));
            lemma_tables_view(m@.skip(i as int + 1));
            assert(m@.skip(i as int)[0] == m@[i as int]);
            assert(m@.skip(i as int).drop_first() =~= m@.skip(i as int + 1));
            assert(tables_view(m@.skip(i as int)).drop_first() =~= tables_view(
                m@.skip(i as int + 1),
            ));
        }
        if m[i].0 == *name {
            return Some(m[i].1.clone());
        }
        i = i + 1;
    }
    proof {
        assert(m@.skip(n as int) =~= Seq::<(String, VmFunctionTable)>::empty());
        assert(tables_view(m@.skip(n as int)) =~= Seq::<(Seq<char>, TableM)>::empty());
    }
    None
}

/// Replaces the first table stored under a name, or appends a new entry.
fn set_table(m: &mut Vec<(String, VmFunctionTable)>, name: &String, t: VmFunctionTable)
    ensures
        tables_view(final(m)@) == tbl_set(tables_view(old(m)@), name@, t@),
{
    proof {
        lemma_tables_view(m@);
        assert(m@.skip(0) =~= m@);
    }
    let ghost m0 = m@;
    let n = m.len();
    let mut i: usize = 0;
    while i < n
        invariant
            0 <= i <= n,
            n == m0.len(),
            m@ == m0,
            m0 == old(m)@,
            tbl_set(tables_view(m0), name@, t@) == tables_view(m0.take(i as int)) + tbl_set(
                tables_view(m0.skip(i as int)),
                name@,
                t@,
            ),
            forall|j: int| 0 <= j < i ==> m0[j].0@ != name@,
        decreases n - i,
    {
        proof {
            lemma_tables_view(m0);
            lemma_tables_view(m0.skip(i as int));
            lemma_tables_view(m0.skip(i as int + 1));
            lemma_tables_view(m0.take(i as int));
            lemma_tables_view(m0.take(i as int + 1));
            assert(m0.skip(i as int)[0] == m0[i as int]);
            assert(m0.skip(i as int).drop_first() =~= m0.skip(i as int + 1));
            assert(tables_view(m0.skip(i as int)).drop_first() =~= tables_view(
                m0.skip(i as int + 1),
            ));
        }
        if m[i].0 == *name {
            let nm = name.clone();
            m.set(i, (nm, t));
            proof {
                lemma_tables_view(m@);
                lemma_tables_view(m0);
                lemma_tables_view(m0.take(i as int));
                lemma_tables_view(m0.skip(i as int + 1));
                assert(tbl_set(tables_view(m0.skip(i as int)), name@, t@) =~= seq![(name@, t@)]
                    + tables_view(m0.skip(i as int + 1)));
                assert(tables_view(m@) =~= tables_view(m0.take(i as int)) + (seq![(name@, t@)]
                    + tables_view(m0.skip(i as int + 1))));
            }
            return;
        }
        proof {
            assert(m0.take(i as int + 1).drop_last() =~= m0.take(i as int));
            assert(tables_view(m0.take(i as int + 1)) =~= tables_view(m0.take(i as int)).push(
                (m0[i as int].0@, m0[i as int].1@),
            )) by {
                lemma_tables_view(m0.take(i as int + 1));
                lemma_tables_view(m0.take(i as int));
            }
            assert(tables_view(m0.take(i as int)) + tbl_set(
                tables_view(m0.skip(i as int)),
                name@,
                t@,
            ) =~= tables_view(m0.take(i as int + 1)) + tbl_set(
                tables_view(m0.skip(i as int + 1)),
                name@,
                t@,
            ));
        }
        i = i + 1;
    }
    let nm = name.clone();
    m.push((nm, t));
    proof {
        lemma_tables_view(m@);
        lemma_tables_view(m0);
        assert(m@.drop_last() =~= m0);
        assert(tables_view(m@) =~= tables_view(m0).push((name@, t@)));
        assert(m0.skip(n as int) =~= Seq::<(String, VmFunctionTable)>::empty());
        assert(tables_view(m0.skip(n as int)) =~= Seq::<(Seq<char>, TableM)>::empty());
        assert(tbl_set(tables_view(m0.skip(n as int)), name@, t@) =~= seq![(name@, t@)]);
        assert(m0.take(n as int) =~= m0);
        assert(tables_view(m0) + seq![(name@, t@)] =~= tables_view(m0).push((name@, t@)));
    }
}

} // verus!
