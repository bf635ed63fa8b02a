//! The hello service: its declaration, and the server-side wrapper that
//! hands decoded calls to an implementation.

use vstd::prelude::*;
use crate::codec::{Value, ValueView, WireType};
use crate::declaration::{Declaration, DeclarationView, MethodSig, MethodView, Param, ParamView};

verus! {

/// A service with one method, `test`, from a string to a string.
pub trait HelloService {
    /// What the implementation promises of `test`: `r` may be returned for
    /// the argument `test` by an implementation in this state. An
    /// implementation states its promise by overriding this; by default it
    /// promises nothing.
    open spec fn test_result(&self, test: Seq<char>, r: Seq<char>) -> bool {
        true
    }

    fn test(&mut self, test: String) -> (r: String)
        ensures
            old(self).test_result(test@, r@),
    ;
}

/// A service implementation that calls arrive at, by method position.
pub trait Handler {
    /// Runs method `method_index` on `args`; `None` where the service has no
    /// such method or the arguments do not fit it.
    fn handle(&mut self, method_index: usize, args: Vec<Value>) -> Option<Value>;
}

/// The declaration of [`HelloService`].
pub open spec fn hello_view() -> DeclarationView {
    DeclarationView {
        name: "HelloService"@,
        methods: seq![
            MethodView {
                name: "test"@,
                params: seq![ParamView { name: "test"@, ty: WireType::Str }],
                ret: WireType::Str,
            },
        ],
    }
}

/// Builds the declaration of [`HelloService`].
pub fn hello_service_declaration() -> (r: Declaration)
    ensures
        r@ == hello_view(),
{
    let param = Param { name: "test".to_owned(), ty: WireType::Str };
    let mut params: Vec<Param> = Vec::new();
    params.push(param);
    let method = MethodSig { name: "test".to_owned(), params, ret: WireType::Str };
    let mut methods: Vec<MethodSig> = Vec::new();
    methods.push(method);
    let ghost mv = methods@.map_values(|m: MethodSig| m@);
    assert(mv =~= hello_view().methods) by {
        assert(mv[0].params =~= hello_view().methods[0].params);
    }
    match Declaration::new("HelloService".to_owned(), methods) {
        Ok(d) => d,
        Err(_) => {
            proof {
                assert(crate::declaration::methods_distinct(mv));
                assert(crate::declaration::all_params_distinct(mv));
            }
            unreached()
        },
    }
}

/// Adapts an implementation of [`HelloService`] to [`Handler`].
pub struct HelloServiceWrapper<T: HelloService> {
    handler: T,
}

impl<T: HelloService> HelloServiceWrapper<T> {
    /// The wrapped implementation.
    pub closed spec fn inner(&self) -> T {
        self.handler
    }

    /// The wrapped implementation.
    pub fn handler(&self) -> (r: &T)
        ensures
            *r == self.inner(),
    {
        &self.handler
    }

    pub fn new(handler: T) -> (r: Self)
        ensures
            r.inner() == handler,
    {
        HelloServiceWrapper { handler }
    }

    /// Calls `test` on the implementation when `args` is one string, the
    /// parameters of `test`; returns its result as a string value.
    pub fn handle_test(&mut self, args: Vec<Value>) -> (r: Option<Value>)
        ensures
            r is Some <==> args@.len() == 1 && args@[0]@ is Str,
            r matches Some(v) ==> (args@[0]@ matches ValueView::Str(a) && v@ matches ValueView::Str(
                b,
            ) && old(self).inner().test_result(a, b)),
            r is None ==> *final(self) == *old(self),
    {
        if args.len() != 1 {
            return None;
        }
        let mut args = args;
        match args.pop() {
            Some(Value::Str(s)) => Some(Value::Str(self.handler.test(s))),
            _ => None,
        }
    }

    /// Routes a call by method position: position 0 is `test`, and no other
    /// position names a method of the service.
    pub fn route(&mut self, method_index: usize, args: Vec<Value>) -> (r: Option<Value>)
        ensures
            method_index != 0 ==> r is None && *final(self) == *old(self),
            method_index == 0 ==> (r is Some <==> args@.len() == 1 && args@[0]@ is Str),
            method_index == 0 ==> (r matches Some(v) ==> (args@[0]@ matches ValueView::Str(a)
                && v@ matches ValueView::Str(b) && old(self).inner().test_result(a, b))),
    {
        if method_index == 0 {
            self.handle_test(args)
        } else {
            None
        }
    }
}

impl<T: HelloService> Handler for HelloServiceWrapper<T> {
    fn handle(&mut self, method_index: usize, args: Vec<Value>) -> Option<Value> {
        self.route(method_index, args)
    }
}

} // verus!
