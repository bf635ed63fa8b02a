//! The client side of a service: frames calls and reads replies, following
//! one declaration.

use vstd::prelude::*;
use crate::codec::{
    decode_value, encode_all, encode_str, encode_values, encode_view, type_of, Decoded, Error,
    Value, ValueView, WireType, decode_view,
};
use crate::declaration::{
    first_named, none_named, param_types, valid_methods, Declaration, DeclarationView, MethodView,
};

verus! {

/// The bytes of a call: the service name, the method name, then each
/// argument in declared order.
pub open spec fn call_frame(service: Seq<char>, method: Seq<char>, args: Seq<ValueView>) -> Seq<
    u8,
> {
    encode_view(ValueView::Str(service)) + encode_view(ValueView::Str(method)) + encode_all(args)
}

/// The arguments have, one for one, the given types.
pub open spec fn args_match(args: Seq<ValueView>, types: Seq<WireType>) -> bool {
    args.len() == types.len() && forall|i: int| 0 <= i < args.len() ==> type_of(args[i]) == types[i]
}

/// The views of a vector of values.
pub open spec fn views(vs: Seq<Value>) -> Seq<ValueView> {
    vs.map_values(|v: Value| v@)
}

/// Where method names are unique, the first method of a name is the only
/// one.
pub proof fn lemma_only_first(ms: Seq<MethodView>, name: Seq<char>, k: int)
    requires
        valid_methods(ms),
        first_named(ms, name, k),
    ensures
        forall|i: int| 0 <= i < ms.len() && #[trigger] ms[i].name == name ==> i == k,
{
}

/// Why a call could not be made or its reply not read.
#[derive(Clone, Copy, Debug, PartialEq, Eq, Structural)]
pub enum CallError {
    /// The service declares no method of that name.
    UnknownMethod,
    /// The arguments do not have the method's parameter types.
    ArgumentMismatch,
    /// The reply could not be read.
    Codec(Error),
}

/// What `read_reply` returns for a given outcome of reading the reply.
pub open spec fn reply_result(d: Decoded, r: Result<(Value, usize), CallError>) -> bool {
    match d {
        Decoded::Done(v, n) => r matches Ok((x, end)) && x@ == v && end == n,
        Decoded::Truncated => r == Err::<(Value, usize), CallError>(
            CallError::Codec(Error::Truncated),
        ),
        Decoded::Invalid => r == Err::<(Value, usize), CallError>(CallError::Codec(Error::Invalid)),
    }
}

/// A client proxy for one service.
pub struct Client {
    decl: Declaration,
}

impl Client {
    pub fn new(decl: Declaration) -> (r: Client)
        ensures
            r.spec_declaration() == decl@,
    {
        Client { decl }
    }

    pub closed spec fn spec_declaration(&self) -> DeclarationView {
        self.decl@
    }

    /// The declaration the client follows.
    pub fn declaration(&self) -> (r: &Declaration)
        ensures
            r@ == self.spec_declaration(),
            valid_methods(self.spec_declaration().methods),
    {
        let _ = self.decl.methods();
        &self.decl
    }

    /// The bytes of a call of `method` with `args`.
    pub fn encode_call(&self, method: &str, args: &Vec<Value>) -> (r: Result<Vec<u8>, CallError>)
        ensures
            none_named(self.spec_declaration().methods, method@) ==> r == Err::<
                Vec<u8>,
                CallError,
            >(CallError::UnknownMethod),
            forall|i: int|
                0 <= i < self.spec_declaration().methods.len()
                    && #[trigger] self.spec_declaration().methods[i].name == method@ ==> {
                    let m = self.spec_declaration().methods[i];
                    if args_match(views(args@), param_types(m)) {
                        r matches Ok(bytes) && bytes@ == call_frame(
                            self.spec_declaration().name,
                            method@,
                            views(args@),
                        )
                    } else {
                        r == Err::<Vec<u8>, CallError>(CallError::ArgumentMismatch)
                    }
                },
    {
        let name = method.to_owned();
        let idx = match self.decl.find_method(&name) {
            Some(i) => i,
            None => {
                return Err(CallError::UnknownMethod);
            },
        };
        let methods = self.decl.methods();
        proof {
            lemma_only_first(self.spec_declaration().methods, method@, idx as int);
        }
        let params = &methods[idx].params;
        let ghost m = self.spec_declaration().methods[idx as int];
        assert(m == methods@[idx as int]@);
        let n = params.len();
        if n != args.len() {
            return Err(CallError::ArgumentMismatch);
        }
        let mut i: usize = 0;
        while i < n
            invariant
                n == params@.len() == args@.len() == m.params.len(),
                m.params == params@.map_values(|p: crate::declaration::Param| p@),
                i <= n,
                first_named(self.spec_declaration().methods, method@, idx as int),
                forall|j: int|
                    0 <= j < self.spec_declaration().methods.len()
                        && #[trigger] self.spec_declaration().methods[j].name == method@ ==> j
                        == idx,
                m == self.spec_declaration().methods[idx as int],
                forall|j: int| 0 <= j < i ==> type_of(views(args@)[j]) == param_types(m)[j],
            decreases n - i,
        {
            assert(views(args@)[i as int] == args@[i as int]@);
            assert(param_types(m)[i as int] == params@[i as int].ty);
            if !same_type(&args[i], params[i].ty) {
                return Err(CallError::ArgumentMismatch);
            }
            i = i + 1;
        }
        let mut out: Vec<u8> = Vec::new();
        encode_str(self.decl.name().as_str(), &mut out);
        encode_str(method, &mut out);
        encode_values(args, &mut out);
        assert(out@ =~= call_frame(self.spec_declaration().name, method@, views(args@)));
        Ok(out)
    }

    /// Reads the reply to a call of `method` from the front of `buf`; on
    /// success also returns how many bytes it took.
    pub fn read_reply(&self, method: &str, buf: &[u8]) -> (r: Result<(Value, usize), CallError>)
        ensures
            none_named(self.spec_declaration().methods, method@) ==> r == Err::<
                (Value, usize),
                CallError,
            >(CallError::UnknownMethod),
            forall|i: int|
                0 <= i < self.spec_declaration().methods.len()
                    && #[trigger] self.spec_declaration().methods[i].name == method@ ==> reply_result(
                    decode_view(self.spec_declaration().methods[i].ret, buf@),
                    r,
                ),
    {
        let name = method.to_owned();
        let idx = match self.decl.find_method(&name) {
            Some(i) => i,
            None => {
                return Err(CallError::UnknownMethod);
            },
        };
        let methods = self.decl.methods();
        proof {
            lemma_only_first(self.spec_declaration().methods, method@, idx as int);
        }
        let ret = methods[idx].ret;
        assert(self.spec_declaration().methods[idx as int] == methods@[idx as int]@);
        assert(buf@.subrange(0, buf@.len() as int) =~= buf@);
        match decode_value(ret, buf, 0) {
            Ok((v, end)) => Ok((v, end)),
            Err(e) => Err(CallError::Codec(e)),
        }
    }
}

/// Whether `v` has wire type `t`.
pub fn same_type(v: &Value, t: WireType) -> (r: bool)
    ensures
        r == (type_of(v@) == t),
{
    let vt = match v {
        Value::Unit => WireType::Unit,
        Value::Bool(_) => WireType::Bool,
        Value::U8(_) => WireType::U8,
        Value::U16(_) => WireType::U16,
        Value::U32(_) => WireType::U32,
        Value::U64(_) => WireType::U64,
        Value::I8(_) => WireType::I8,
        Value::I16(_) => WireType::I16,
        Value::I32(_) => WireType::I32,
        Value::I64(_) => WireType::I64,
        Value::Str(_) => WireType::Str,
        Value::Bytes(_) => WireType::Bytes,
    };
    vt == t
}

} // verus!
