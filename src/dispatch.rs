//! The server side: a registry from service names to declarations, and the
//! step that reads one call frame off the front of the bytes received.
//!
//! A connection waits for a service name; on a clean end of the stream it is
//! closed; a broken frame closes it with a protocol error; a complete call is
//! handed out to be invoked.
//!
//! Routing misses are not fatal. A service name that no service answers to is
//! reported with only that name consumed, and a method name that the service
//! does not declare is reported with the two names consumed; the connection
//! then waits for the next service name right after them. The server cannot
//! skip the rest of such a frame, since it does not know the types of its
//! arguments: where the client did send arguments, they are read as the start
//! of the next frame. This is a deliberate choice, kept so that a miss never
//! closes a connection; a client that may name unknown services or methods
//! should open a fresh connection after a miss.

use vstd::prelude::*;
use crate::client::{args_match, call_frame, same_type};
use crate::codec::{
    decode_all, decode_value, decode_values, decode_view, encode_all, encode_value, encode_view,
    lemma_round_trip, lemma_round_trip_all, type_of, types_of, well_sized, Decoded, DecodedAll,
    Error, Value, ValueView, WireType,
};
use crate::declaration::{
    first_named, param_types, valid_methods, Declaration, DeclarationView, MethodView,
};

verus! {

/// What a server holds for each service: the name it is registered under
/// and its declaration.
pub type RegistryView = Seq<(Seq<char>, DeclarationView)>;

/// `i` is the position of the first service of `reg` registered as `name`.
pub open spec fn first_service(reg: RegistryView, name: Seq<char>, i: int) -> bool {
    0 <= i < reg.len() && reg[i].0 == name && forall|j: int| 0 <= j < i ==> reg[j].0 != name
}

pub proof fn lemma_first_service_unique(reg: RegistryView, name: Seq<char>, i: int, j: int)
    requires
        first_service(reg, name, i),
        first_service(reg, name, j),
    ensures
        i == j,
{
}

pub proof fn lemma_first_named_unique(ms: Seq<MethodView>, name: Seq<char>, i: int, j: int)
    requires
        first_named(ms, name, i),
        first_named(ms, name, j),
    ensures
        i == j,
{
}

/// What reading one frame gives.
pub enum StepView {
    /// The stream ended between frames.
    Closed,
    /// The frame is not complete yet.
    NeedInput,
    /// The frame is broken; the connection cannot go on.
    ProtocolError,
    /// No service is registered under the name read.
    UnknownService { service: Seq<char>, consumed: nat },
    /// The service declares no method of the name read.
    UnknownMethod { service: Seq<char>, method: Seq<char>, consumed: nat },
    /// A complete call.
    Invoke {
        service: Seq<char>,
        method: Seq<char>,
        method_index: nat,
        args: Seq<ValueView>,
        consumed: nat,
    },
}

/// A frame that ends early: wait for more bytes, unless none will come.
pub open spec fn incomplete(eof: bool) -> StepView {
    if eof {
        StepView::ProtocolError
    } else {
        StepView::NeedInput
    }
}

/// Reads the arguments of method `k` of `d`, after `n` bytes of names.
pub open spec fn call_step(
    d: DeclarationView,
    service: Seq<char>,
    method: Seq<char>,
    k: int,
    n: nat,
    s: Seq<u8>,
    eof: bool,
) -> StepView {
    match decode_all(param_types(d.methods[k]), s.skip(n as int)) {
        DecodedAll::Done(args, m) => StepView::Invoke {
            service,
            method,
            method_index: k as nat,
            args,
            consumed: n + m,
        },
        DecodedAll::Truncated => incomplete(eof),
        DecodedAll::Invalid => StepView::ProtocolError,
    }
}

/// Reads the method name, after the `n1` bytes of the service name of a
/// service declared as `d`.
pub open spec fn method_step(
    d: DeclarationView,
    service: Seq<char>,
    n1: nat,
    s: Seq<u8>,
    eof: bool,
) -> StepView {
    match decode_view(WireType::Str, s.skip(n1 as int)) {
        Decoded::Done(ValueView::Str(method), n2) => if exists|k: int|
            first_named(d.methods, method, k) {
            call_step(
                d,
                service,
                method,
                choose|k: int| first_named(d.methods, method, k),
                n1 + n2,
                s,
                eof,
            )
        } else {
            StepView::UnknownMethod { service, method, consumed: n1 + n2 }
        },
        Decoded::Truncated => incomplete(eof),
        _ => StepView::ProtocolError,
    }
}

/// Reads one frame from the front of `s`; `eof` tells whether the stream
/// has ended after `s`.
pub open spec fn step_view(reg: RegistryView, s: Seq<u8>, eof: bool) -> StepView {
    if s.len() == 0 {
        if eof {
            StepView::Closed
        } else {
            StepView::NeedInput
        }
    } else {
        match decode_view(WireType::Str, s) {
            Decoded::Done(ValueView::Str(service), n1) => if exists|i: int|
                first_service(reg, service, i) {
                method_step(reg[choose|i: int| first_service(reg, service, i)].1, service, n1, s, eof)
            } else {
                StepView::UnknownService { service, consumed: n1 }
            },
            Decoded::Truncated => incomplete(eof),
            _ => StepView::ProtocolError,
        }
    }
}

/// What reading one frame gives.
pub enum Step {
    Closed,
    NeedInput,
    ProtocolError,
    UnknownService { service: String, consumed: usize },
    UnknownMethod { service: String, method: String, consumed: usize },
    Invoke {
        service: String,
        method: String,
        method_index: usize,
        args: Vec<Value>,
        consumed: usize,
    },
}

impl View for Step {
    type V = StepView;

    open spec fn view(&self) -> StepView {
        match self {
            Step::Closed => StepView::Closed,
            Step::NeedInput => StepView::NeedInput,
            Step::ProtocolError => StepView::ProtocolError,
            Step::UnknownService { service, consumed } => StepView::UnknownService {
                service: service@,
                consumed: *consumed as nat,
            },
            Step::UnknownMethod { service, method, consumed } => StepView::UnknownMethod {
                service: service@,
                method: method@,
                consumed: *consumed as nat,
            },
            Step::Invoke { service, method, method_index, args, consumed } => StepView::Invoke {
                service: service@,
                method: method@,
                method_index: *method_index as nat,
                args: args@.map_values(|v: Value| v@),
                consumed: *consumed as nat,
            },
        }
    }
}

/// The parameter types of `m`, in order.
fn param_type_vec(m: &crate::declaration::MethodSig) -> (r: Vec<WireType>)
    ensures
        r@ == param_types(m@),
{
    let n = m.params.len();
    let mut r: Vec<WireType> = Vec::new();
    let mut i: usize = 0;
    while i < n
        invariant
            n == m.params@.len(),
            i <= n,
            r@ == param_types(m@).subrange(0, i as int),
        decreases n - i,
    {
        r.push(m.params[i].ty);
        i = i + 1;
        assert(r@ =~= param_types(m@).subrange(0, i as int));
    }
    assert(param_types(m@).subrange(0, n as int) =~= param_types(m@));
    r
}

fn incomplete_step(eof: bool) -> (r: Step)
    ensures
        r@ == incomplete(eof),
{
    if eof {
        Step::ProtocolError
    } else {
        Step::NeedInput
    }
}

struct Entry {
    name: String,
    service: Declaration,
}

/// Every declaration in `reg` has unique method and parameter names.
pub open spec fn registry_valid(reg: RegistryView) -> bool {
    forall|i: int| 0 <= i < reg.len() ==> valid_methods(#[trigger] reg[i].1.methods)
}

/// The registry of a server: which declaration answers to each service
/// name.
pub struct Server {
    entries: Vec<Entry>,
}

impl Server {
    /// The services, in order of first registration.
    pub closed spec fn registry(&self) -> RegistryView {
        self.entries@.map_values(|e: Entry| (e.name@, e.service@))
    }

    /// Every registered declaration has unique method and parameter names.
    #[verifier::type_invariant]
    closed spec fn entries_valid(&self) -> bool {
        registry_valid(self.registry())
    }

    /// A server with no service.
    pub fn new() -> (r: Server)
        ensures
            r.registry() == Seq::<(Seq<char>, DeclarationView)>::empty(),
            registry_valid(r.registry()),
    {
        let entries: Vec<Entry> = Vec::new();
        assert(entries@.map_values(|e: Entry| (e.name@, e.service@)) =~= Seq::<
            (Seq<char>, DeclarationView),
        >::empty());
        Server { entries }
    }

    fn find_service(&self, name: &String) -> (r: Option<usize>)
        ensures
            r matches Some(i) ==> first_service(self.registry(), name@, i as int),
            r is None ==> forall|j: int|
                0 <= j < self.registry().len() ==> self.registry()[j].0 != name@,
    {
        let n = self.entries.len();
        let mut i: usize = 0;
        while i < n
            invariant
                n == self.entries@.len() == self.registry().len(),
                i <= n,
                forall|j: int| 0 <= j < i ==> self.registry()[j].0 != name@,
            decreases n - i,
        {
            assert(self.registry()[i as int].0 == self.entries@[i as int].name@);
            if self.entries[i].name == *name {
                return Some(i);
            }
            i = i + 1;
        }
        None
    }

    /// Reads one frame from the front of `input`; `at_eof` tells whether the
    /// stream has ended after `input`.
    pub fn next_step(&self, input: &[u8], at_eof: bool) -> (r: Step)
        ensures
            r@ == step_view(self.registry(), input@, at_eof),
            registry_valid(self.registry()),
    {
        proof {
            use_type_invariant(self);
        }
        let ghost reg = self.registry();
        let ghost s = input@;
        let len = input.len();
        if len == 0 {
            return if at_eof {
                Step::Closed
            } else {
                Step::NeedInput
            };
        }
        assert(s.subrange(0, len as int) =~= s);
        let (service, n1) = match decode_value(WireType::Str, input, 0) {
            Ok((Value::Str(service), end)) => (service, end),
            Ok(_) => {
                return Step::ProtocolError;
            },
            Err(Error::Truncated) => {
                return incomplete_step(at_eof);
            },
            Err(Error::Invalid) => {
                return Step::ProtocolError;
            },
        };
        let i = match self.find_service(&service) {
            Some(i) => i,
            None => {
                return Step::UnknownService { service, consumed: n1 };
            },
        };
        let d = &self.entries[i].service;
        proof {
            let c = choose|c: int| first_service(reg, service@, c);
            lemma_first_service_unique(reg, service@, c, i as int);
            assert(reg[i as int].1 == d@);
        }
        assert(s.skip(n1 as int) =~= s.subrange(n1 as int, len as int));
        let (method, n2) = match decode_value(WireType::Str, input, n1) {
            Ok((Value::Str(method), end)) => (method, end),
            Ok(_) => {
                return Step::ProtocolError;
            },
            Err(Error::Truncated) => {
                return incomplete_step(at_eof);
            },
            Err(Error::Invalid) => {
                return Step::ProtocolError;
            },
        };
        let k = match d.find_method(&method) {
            Some(k) => k,
            None => {
                return Step::UnknownMethod { service, method, consumed: n2 };
            },
        };
        let methods = d.methods();
        let ts = param_type_vec(&methods[k]);
        proof {
            let c = choose|c: int| first_named(d@.methods, method@, c);
            lemma_first_named_unique(d@.methods, method@, c, k as int);
            assert(d@.methods[k as int] == methods@[k as int]@);
        }
        assert(s.skip(n2 as int) =~= s.subrange(n2 as int, len as int));
        match decode_values(&ts, input, n2) {
            Ok((args, end)) => Step::Invoke { service, method, method_index: k, args, consumed: end },
            Err(Error::Truncated) => incomplete_step(at_eof),
            Err(Error::Invalid) => Step::ProtocolError,
        }
    }

    /// The reply to a call of method `method_index` of the service registered
    /// as `service`: the encoding of `value`, when the service and method
    /// exist and `value` has the method's return type.
    pub fn encode_reply(&self, service: &String, method_index: usize, value: &Value) -> (r: Option<
        Vec<u8>,
    >)
        ensures
            (forall|j: int| 0 <= j < self.registry().len() ==> self.registry()[j].0 != service@)
                ==> r is None,
            forall|i: int|
                first_service(self.registry(), service@, i) ==> {
                    let ms = #[trigger] self.registry()[i].1.methods;
                    if method_index < ms.len() && type_of(value@) == ms[method_index as int].ret {
                        r matches Some(bytes) && bytes@ == encode_view(value@)
                    } else {
                        r is None
                    }
                },
    {
        let i = match self.find_service(service) {
            Some(i) => i,
            None => {
                return None;
            },
        };
        let methods = self.entries[i].service.methods();
        assert(self.registry()[i as int].1 == self.entries@[i as int].service@);
        if method_index >= methods.len() {
            return None;
        }
        assert(self.registry()[i as int].1.methods[method_index as int]
            == methods@[method_index as int]@);
        if !same_type(value, methods[method_index].ret) {
            return None;
        }
        let mut out: Vec<u8> = Vec::new();
        encode_value(value, &mut out);
        assert(out@ =~= encode_view(value@));
        Some(out)
    }

    /// Registers `service` under `service_name`, replacing the service
    /// registered under that name before, if any.
    pub fn register_handler(&mut self, service_name: &str, service: Declaration)
        ensures
            forall|i: int|
                first_service(old(self).registry(), service_name@, i) ==> final(self).registry()
                    == old(self).registry().update(i, (service_name@, service@)),
            (forall|j: int|
                0 <= j < old(self).registry().len() ==> old(self).registry()[j].0
                    != service_name@) ==> final(self).registry() == old(self).registry().push(
                (service_name@, service@),
            ),
            registry_valid(final(self).registry()),
    {
        let _ = service.methods();
        let mut taken = Server::new();
        std::mem::swap(self, &mut taken);
        proof {
            use_type_invariant(&taken);
        }
        let name = service_name.to_owned();
        let ghost sv = service@;
        let found = taken.find_service(&name);
        let mut entries = taken.entries;
        match found {
            Some(i) => {
                entries.set(i, Entry { name, service });
                assert(entries@.map_values(|e: Entry| (e.name@, e.service@)) =~= old(
                    self,
                ).registry().update(i as int, (service_name@, sv)));
            },
            None => {
                entries.push(Entry { name, service });
                assert(entries@.map_values(|e: Entry| (e.name@, e.service@)) =~= old(
                    self,
                ).registry().push((service_name@, sv)));
            },
        }
        *self = Server { entries };
    }
}

/// The encoding of `v`, read back from the front of it with anything after.
proof fn lemma_str_prefix(v: Seq<char>, rest: Seq<u8>)
    requires
        well_sized(ValueView::Str(v)),
    ensures
        decode_view(WireType::Str, encode_view(ValueView::Str(v)) + rest) == Decoded::Done(
            ValueView::Str(v),
            encode_view(ValueView::Str(v)).len(),
        ),
        (encode_view(ValueView::Str(v)) + rest).skip(encode_view(ValueView::Str(v)).len() as int)
            == rest,
{
    lemma_round_trip(ValueView::Str(v), rest);
    assert((encode_view(ValueView::Str(v)) + rest).skip(
        encode_view(ValueView::Str(v)).len() as int,
    ) =~= rest);
}

/// A call of method `k` of `d` with `args` can be written: `d` has unique
/// names, the method name's length fits in eight bytes, and the arguments
/// have the parameter types and fit too.
pub open spec fn call_ok(d: DeclarationView, k: int, args: Seq<ValueView>) -> bool {
    &&& 0 <= k < d.methods.len()
    &&& valid_methods(d.methods)
    &&& well_sized(ValueView::Str(d.methods[k].name))
    &&& args_match(args, param_types(d.methods[k]))
    &&& forall|j: int| 0 <= j < args.len() ==> well_sized(#[trigger] args[j])
}

/// The step a server takes on a call of method `k` of `d` under `service`.
pub open spec fn invoked(
    service: Seq<char>,
    d: DeclarationView,
    k: int,
    args: Seq<ValueView>,
) -> StepView {
    StepView::Invoke {
        service,
        method: d.methods[k].name,
        method_index: k as nat,
        args,
        consumed: call_frame(service, d.methods[k].name, args).len(),
    }
}

/// A server reads a call that a client framed from the declaration
/// registered under the service's name as exactly that call: same service,
/// same method, same arguments, and it consumes the whole frame and nothing
/// after it.
pub proof fn lemma_call_dispatch(
    reg: RegistryView,
    service: Seq<char>,
    i: int,
    k: int,
    args: Seq<ValueView>,
    rest: Seq<u8>,
    eof: bool,
)
    requires
        first_service(reg, service, i),
        well_sized(ValueView::Str(service)),
        call_ok(reg[i].1, k, args),
    ensures
        step_view(reg, call_frame(service, reg[i].1.methods[k].name, args) + rest, eof)
            == invoked(service, reg[i].1, k, args),
{
    let d = reg[i].1;
    let method = d.methods[k].name;
    let es = encode_view(ValueView::Str(service));
    let em = encode_view(ValueView::Str(method));
    let ea = encode_all(args);
    let s = call_frame(service, method, args) + rest;
    assert(s =~= es + (em + (ea + rest)));
    lemma_str_prefix(service, em + (ea + rest));
    assert(es.len() > 0) by {
        crate::codec::lemma_pow256_values();
        assert(es.len() >= 8);
    }
    let c = choose|c: int| first_service(reg, service, c);
    lemma_first_service_unique(reg, service, c, i);
    lemma_str_prefix(method, ea + rest);
    assert(s.skip(es.len() as int) == em + (ea + rest));
    assert(s.skip((es.len() + em.len()) as int) =~= ea + rest);
    assert(first_named(d.methods, method, k));
    let ck = choose|c: int| first_named(d.methods, method, c);
    lemma_first_named_unique(d.methods, method, ck, k);
    assert(types_of(args) =~= param_types(d.methods[k]));
    lemma_round_trip_all(args, rest);
}

/// A frame that names no registered service is reported as such, with only
/// the service name consumed: the connection neither closes nor fails.
pub proof fn lemma_unknown_service(reg: RegistryView, service: Seq<char>, rest: Seq<u8>, eof: bool)
    requires
        forall|j: int| 0 <= j < reg.len() ==> reg[j].0 != service,
        well_sized(ValueView::Str(service)),
    ensures
        step_view(reg, encode_view(ValueView::Str(service)) + rest, eof)
            == (StepView::UnknownService {
            service,
            consumed: encode_view(ValueView::Str(service)).len(),
        }),
{
    lemma_str_prefix(service, rest);
    crate::codec::lemma_pow256_values();
}

/// A frame that names a registered service and a method it does not declare
/// is reported as such, with the two names consumed: the connection neither
/// closes nor fails.
pub proof fn lemma_unknown_method(
    reg: RegistryView,
    service: Seq<char>,
    i: int,
    method: Seq<char>,
    rest: Seq<u8>,
    eof: bool,
)
    requires
        first_service(reg, service, i),
        forall|j: int| 0 <= j < reg[i].1.methods.len() ==> reg[i].1.methods[j].name != method,
        well_sized(ValueView::Str(service)),
        well_sized(ValueView::Str(method)),
    ensures
        step_view(
            reg,
            encode_view(ValueView::Str(service)) + encode_view(ValueView::Str(method)) + rest,
            eof,
        ) == (StepView::UnknownMethod {
            service,
            method,
            consumed: encode_view(ValueView::Str(service)).len() + encode_view(
                ValueView::Str(method),
            ).len(),
        }),
{
    let es = encode_view(ValueView::Str(service));
    let em = encode_view(ValueView::Str(method));
    let s = es + em + rest;
    assert(s =~= es + (em + rest));
    lemma_str_prefix(service, em + rest);
    assert(es.len() > 0) by {
        crate::codec::lemma_pow256_values();
        assert(es.len() >= 8);
    }
    let c = choose|c: int| first_service(reg, service, c);
    lemma_first_service_unique(reg, service, c, i);
    let d = reg[i].1;
    lemma_str_prefix(method, rest);
    assert(s.skip(es.len() as int) == em + rest);
    assert(!exists|k: int| first_named(d.methods, method, k));
    assert(method_step(d, service, es.len(), s, eof) == (StepView::UnknownMethod {
        service,
        method,
        consumed: es.len() + em.len(),
    }));
}

/// When the stream ends between frames, the connection closes without an
/// error.
pub proof fn lemma_clean_shutdown(reg: RegistryView)
    ensures
        step_view(reg, Seq::empty(), true) == StepView::Closed,
{
}

/// The frames of calls of methods of `d` under `service`, one after another.
pub open spec fn frames(service: Seq<char>, d: DeclarationView, calls: Seq<(int, Seq<ValueView>)>) -> Seq<u8>
    decreases calls.len(),
{
    if calls.len() == 0 {
        Seq::empty()
    } else {
        call_frame(service, d.methods[calls[0].0].name, calls[0].1) + frames(
            service,
            d,
            calls.drop_first(),
        )
    }
}

/// The steps a server takes on `s`, at most `n` of them, going on after
/// each call it reads; `eof` tells whether the stream ends after `s`.
pub open spec fn serve_steps(reg: RegistryView, s: Seq<u8>, n: nat, eof: bool) -> Seq<StepView>
    decreases n,
{
    if n == 0 {
        Seq::empty()
    } else {
        let st = step_view(reg, s, eof);
        match st {
            StepView::Invoke { consumed, .. } => seq![st] + serve_steps(
                reg,
                s.skip(consumed as int),
                (n - 1) as nat,
                eof,
            ),
            _ => seq![st],
        }
    }
}

proof fn lemma_one_step(reg: RegistryView, s: Seq<u8>, eof: bool)
    ensures
        serve_steps(reg, s, 1, eof) == seq![step_view(reg, s, eof)],
{
    let st = step_view(reg, s, eof);
    match st {
        StepView::Invoke { consumed, .. } => {
            assert(serve_steps(reg, s.skip(consumed as int), 0, eof) =~= Seq::<StepView>::empty());
            assert(seq![st] + Seq::<StepView>::empty() =~= seq![st]);
        },
        _ => {},
    }
}

/// Calls issued one after another on one connection are read by the server
/// one by one, each as the call it was, in the order they were issued; the
/// step after the last call is the one taken on whatever follows the frames.
#[verifier::rlimit(40)]
pub proof fn lemma_sequential_calls(
    reg: RegistryView,
    service: Seq<char>,
    i: int,
    calls: Seq<(int, Seq<ValueView>)>,
    rest: Seq<u8>,
    eof: bool,
)
    requires
        first_service(reg, service, i),
        well_sized(ValueView::Str(service)),
        forall|j: int| 0 <= j < calls.len() ==> call_ok(reg[i].1, (#[trigger] calls[j]).0, calls[j].1),
    ensures
        serve_steps(reg, frames(service, reg[i].1, calls) + rest, calls.len() + 1, eof)
            == calls.map_values(|c: (int, Seq<ValueView>)| invoked(service, reg[i].1, c.0, c.1))
            + seq![step_view(reg, rest, eof)],
    decreases calls.len(),
{
    let d = reg[i].1;
    let inv = |c: (int, Seq<ValueView>)| invoked(service, d, c.0, c.1);
    if calls.len() == 0 {
        assert(calls.map_values(inv) =~= Seq::<StepView>::empty());
        assert(frames(service, d, calls) + rest =~= rest);
        lemma_one_step(reg, rest, eof);
    } else {
        let c = calls[0];
        let tail = calls.drop_first();
        let f = call_frame(service, d.methods[c.0].name, c.1);
        let s = frames(service, d, calls) + rest;
        assert(s =~= f + (frames(service, d, tail) + rest));
        assert(call_ok(d, c.0, c.1));
        lemma_call_dispatch(reg, service, i, c.0, c.1, frames(service, d, tail) + rest, eof);
        assert(s.skip(f.len() as int) =~= frames(service, d, tail) + rest);
        assert forall|j: int| 0 <= j < tail.len() implies call_ok(d, (#[trigger] tail[j]).0, tail[j].1) by {
            assert(tail[j] == calls[j + 1]);
        }
        lemma_sequential_calls(reg, service, i, tail, rest, eof);
        assert(calls.map_values(inv) =~= seq![inv(c)] + tail.map_values(inv));
        assert(calls.map_values(inv) + seq![step_view(reg, rest, eof)] =~= seq![inv(c)] + (
        tail.map_values(inv) + seq![step_view(reg, rest, eof)]));
    }
}

/// Calls issued one after another, followed by the end of the stream, are
/// each read as the call they were, in order, and then the connection
/// closes without an error.
pub proof fn lemma_calls_then_close(
    reg: RegistryView,
    service: Seq<char>,
    i: int,
    calls: Seq<(int, Seq<ValueView>)>,
)
    requires
        first_service(reg, service, i),
        well_sized(ValueView::Str(service)),
        forall|j: int| 0 <= j < calls.len() ==> call_ok(reg[i].1, (#[trigger] calls[j]).0, calls[j].1),
    ensures
        serve_steps(reg, frames(service, reg[i].1, calls), calls.len() + 1, true) == calls.map_values(
            |c: (int, Seq<ValueView>)| invoked(service, reg[i].1, c.0, c.1),
        ).push(StepView::Closed),
{
    lemma_sequential_calls(reg, service, i, calls, Seq::empty(), true);
    assert(frames(service, reg[i].1, calls) + Seq::<u8>::empty() =~= frames(service, reg[i].1, calls));
    lemma_clean_shutdown(reg);
}

} // verus!
