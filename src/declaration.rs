//! Service declarations: a service name and its ordered methods, each with
//! ordered, typed parameters and a return type.

use vstd::prelude::*;
use crate::codec::WireType;

verus! {

/// One parameter of a method.
#[derive(Clone, Debug, PartialEq)]
pub struct Param {
    pub name: String,
    pub ty: WireType,
}

/// The signature of one method.
#[derive(Clone, Debug, PartialEq)]
pub struct MethodSig {
    pub name: String,
    pub params: Vec<Param>,
    pub ret: WireType,
}

/// A service: its name and its methods, with names unique among the methods
/// and, within a method, among its parameters.
#[derive(Debug, PartialEq)]
pub struct Declaration {
    name: String,
    methods: Vec<MethodSig>,
}

pub struct ParamView {
    pub name: Seq<char>,
    pub ty: WireType,
}

pub struct MethodView {
    pub name: Seq<char>,
    pub params: Seq<ParamView>,
    pub ret: WireType,
}

pub struct DeclarationView {
    pub name: Seq<char>,
    pub methods: Seq<MethodView>,
}

impl View for Param {
    type V = ParamView;

    open spec fn view(&self) -> ParamView {
        ParamView { name: self.name@, ty: self.ty }
    }
}

impl View for MethodSig {
    type V = MethodView;

    open spec fn view(&self) -> MethodView {
        MethodView {
            name: self.name@,
            params: self.params@.map_values(|p: Param| p@),
            ret: self.ret,
        }
    }
}

impl View for Declaration {
    type V = DeclarationView;

    closed spec fn view(&self) -> DeclarationView {
        DeclarationView {
            name: self.name@,
            methods: self.methods@.map_values(|m: MethodSig| m@),
        }
    }
}

/// The parameter types of a method, in order.
pub open spec fn param_types(m: MethodView) -> Seq<WireType> {
    m.params.map_values(|p: ParamView| p.ty)
}

/// No two parameters of `m` share a name.
pub open spec fn params_distinct(m: MethodView) -> bool {
    forall|i: int, j: int|
        0 <= i < j < m.params.len() ==> m.params[i].name != m.params[j].name
}

/// No two of the methods share a name.
pub open spec fn methods_distinct(ms: Seq<MethodView>) -> bool {
    forall|i: int, j: int| 0 <= i < j < ms.len() ==> ms[i].name != ms[j].name
}

/// Every method has parameters with distinct names.
pub open spec fn all_params_distinct(ms: Seq<MethodView>) -> bool {
    forall|i: int| 0 <= i < ms.len() ==> params_distinct(#[trigger] ms[i])
}

/// `i` is the position of the first method of `ms` named `name`.
pub open spec fn first_named(ms: Seq<MethodView>, name: Seq<char>, i: int) -> bool {
    0 <= i < ms.len() && ms[i].name == name && forall|j: int| 0 <= j < i ==> ms[j].name != name
}

/// No method of `ms` is named `name`.
pub open spec fn none_named(ms: Seq<MethodView>, name: Seq<char>) -> bool {
    forall|j: int| 0 <= j < ms.len() ==> ms[j].name != name
}

/// Why a declaration was refused.
#[derive(Clone, Copy, Debug, PartialEq, Eq, Structural)]
pub enum DeclarationError {
    /// Two methods share a name.
    DuplicateMethod,
    /// Two parameters of one method share a name.
    DuplicateParam,
}

fn has_distinct_params(m: &MethodSig) -> (r: bool)
    ensures
        r == params_distinct(m@),
{
    let n = m.params.len();
    let mut i: usize = 0;
    while i < n
        invariant
            n == m.params@.len(),
            i <= n,
            forall|a: int, b: int|
                0 <= a < i && a < b < n ==> m@.params[a].name != m@.params[b].name,
        decreases n - i,
    {
        let mut j: usize = i + 1;
        while j < n
            invariant
                n == m.params@.len(),
                i < n,
                i + 1 <= j <= n,
                forall|a: int, b: int|
                    0 <= a < i && a < b < n ==> m@.params[a].name != m@.params[b].name,
                forall|b: int| i < b < j ==> m@.params[i as int].name != m@.params[b].name,
            decreases n - j,
        {
            if m.params[i].name == m.params[j].name {
                assert(m@.params[i as int] == m.params@[i as int]@);
                assert(m@.params[j as int] == m.params@[j as int]@);
                return false;
            }
            j = j + 1;
        }
        i = i + 1;
    }
    true
}

fn has_distinct_methods(ms: &Vec<MethodSig>) -> (r: bool)
    ensures
        r == methods_distinct(ms@.map_values(|m: MethodSig| m@)),
{
    let ghost v = ms@.map_values(|m: MethodSig| m@);
    let n = ms.len();
    let mut i: usize = 0;
    while i < n
        invariant
            n == ms@.len() == v.len(),
            v == ms@.map_values(|m: MethodSig| m@),
            i <= n,
            forall|a: int, b: int| 0 <= a < i && a < b < n ==> v[a].name != v[b].name,
        decreases n - i,
    {
        let mut j: usize = i + 1;
        while j < n
            invariant
                n == ms@.len() == v.len(),
                v == ms@.map_values(|m: MethodSig| m@),
                i < n,
                i + 1 <= j <= n,
                forall|a: int, b: int| 0 <= a < i && a < b < n ==> v[a].name != v[b].name,
                forall|b: int| i < b < j ==> v[i as int].name != v[b].name,
            decreases n - j,
        {
            if ms[i].name == ms[j].name {
                assert(v[i as int] == ms@[i as int]@);
                assert(v[j as int] == ms@[j as int]@);
                return false;
            }
            j = j + 1;
        }
        i = i + 1;
    }
    true
}

/// Names are unique among the methods and, within each, among its
/// parameters.
pub open spec fn valid_methods(ms: Seq<MethodView>) -> bool {
    methods_distinct(ms) && all_params_distinct(ms)
}

impl Declaration {
    #[verifier::type_invariant]
    closed spec fn names_unique(&self) -> bool {
        valid_methods(self@.methods)
    }

    /// Builds a declaration; refuses two methods of one name and, within a
    /// method, two parameters of one name. Method names are checked first.
    pub fn new(name: String, methods: Vec<MethodSig>) -> (r: Result<Declaration, DeclarationError>)
        ensures
            !methods_distinct(methods@.map_values(|m: MethodSig| m@)) ==> r == Err::<
                Declaration,
                DeclarationError,
            >(DeclarationError::DuplicateMethod),
            methods_distinct(methods@.map_values(|m: MethodSig| m@)) && !all_params_distinct(
                methods@.map_values(|m: MethodSig| m@),
            ) ==> r == Err::<Declaration, DeclarationError>(DeclarationError::DuplicateParam),
            r is Ok <==> methods_distinct(methods@.map_values(|m: MethodSig| m@))
                && all_params_distinct(methods@.map_values(|m: MethodSig| m@)),
            r matches Ok(d) ==> d@.name == name@ && d@.methods == methods@.map_values(
                |m: MethodSig| m@,
            ),
    {
        if !has_distinct_methods(&methods) {
            return Err(DeclarationError::DuplicateMethod);
        }
        let ghost v = methods@.map_values(|m: MethodSig| m@);
        let n = methods.len();
        let mut i: usize = 0;
        while i < n
            invariant
                n == methods@.len() == v.len(),
                v == methods@.map_values(|m: MethodSig| m@),
                i <= n,
                methods_distinct(v),
                forall|a: int| 0 <= a < i ==> params_distinct(#[trigger] v[a]),
            decreases n - i,
        {
            assert(v[i as int] == methods@[i as int]@);
            if !has_distinct_params(&methods[i]) {
                return Err(DeclarationError::DuplicateParam);
            }
            i = i + 1;
        }
        Ok(Declaration { name, methods })
    }

    /// The service's name.
    pub fn name(&self) -> (r: &String)
        ensures
            r@ == self@.name,
            valid_methods(self@.methods),
    {
        proof {
            use_type_invariant(self);
        }
        &self.name
    }

    /// The service's methods, in declared order.
    pub fn methods(&self) -> (r: &Vec<MethodSig>)
        ensures
            r@.map_values(|m: MethodSig| m@) == self@.methods,
            valid_methods(self@.methods),
    {
        proof {
            use_type_invariant(self);
        }
        &self.methods
    }

    /// The position of the first method named `name`, if any.
    pub fn find_method(&self, name: &String) -> (r: Option<usize>)
        ensures
            r matches Some(i) ==> first_named(self@.methods, name@, i as int),
            r is None ==> none_named(self@.methods, name@),
    {
        let n = self.methods.len();
        let mut i: usize = 0;
        while i < n
            invariant
                n == self@.methods.len(),
                i <= n,
                forall|j: int| 0 <= j < i ==> self@.methods[j].name != name@,
            decreases n - i,
        {
            assert(self@.methods[i as int] == self.methods@[i as int]@);
            if self.methods[i].name == *name {
                return Some(i);
            }
            i = i + 1;
        }
        None
    }
}

} // verus!
