//! Wrapping a handler function together with its declared context
//! dependencies.
//!
//! An `InjectableCommand` pairs a handler with the keys of the context types
//! it declares, and knows how to invoke it: each declared parameter is
//! resolved from the context store in declaration order, the handler is
//! called with the parsed arguments followed by the resolved values, and its
//! own outcome is propagated unchanged.  The number of declared parameters
//! is a small closed set of arities, one concrete invocation path each,
//! selected by the shape of the key tuple.

use vstd::prelude::*;

use crate::context::parameter::ContextParameter;
use crate::context::provider::ContextProvider;
use crate::error::{CommandResult, ContextError};

verus! {

/// A handler function wrapped together with the keys of the context types
/// it declares.
///
/// `Context` holds those keys: `()` for a handler that declares none,
/// `(u64,)` for one declared context type, `(u64, u64)` for two.
pub struct InjectableCommand<Function, Context> {
    pub function: Function,
    pub context: Context,
}

impl<Function, Context> InjectableCommand<Function, Context> {
    /// Wraps `function` together with the keys of its declared context
    /// types.
    pub fn new(function: Function, context: Context) -> (r: Self)
        ensures
            r == (InjectableCommand { function, context }),
    {
        InjectableCommand { function, context }
    }
}

impl<F> InjectableCommand<F, ()> {
    /// The keys of the context types the wrapped handler declares: none.
    pub open spec fn declared_keys(&self) -> Seq<u64> {
        Seq::empty()
    }

    /// Whether the wrapped handler may be called on `args`.
    pub open spec fn can_call<V, A>(&self, args: A, store: Map<u64, V>) -> bool where
        F: FnOnce(A) -> CommandResult,
     {
        call_requires(self.function, (args,))
    }

    /// What holds of a completed invocation: `out` is a possible outcome
    /// of the wrapped handler applied to `args`.
    pub open spec fn handler_post<V, A>(
        &self,
        args: A,
        store: Map<u64, V>,
        out: CommandResult,
    ) -> bool where F: FnOnce(A) -> CommandResult {
        call_ensures(self.function, (args,), out)
    }

    /// Invokes the wrapped handler on `args`.  No context dependency is
    /// declared, so nothing can be missing and the invocation always
    /// completes with the handler's own outcome.
    pub fn run<V, A>(self, args: A, contexts: &ContextProvider<V>) -> (r: Result<
        CommandResult,
        ContextError,
    >) where F: FnOnce(A) -> CommandResult
        requires
            self.can_call(args, contexts@),
        ensures
            r is Ok,
            r matches Ok(out) ==> self.handler_post(args, contexts@, out),
    {
        Ok((self.function)(args))
    }
}

impl<F> InjectableCommand<F, (u64,)> {
    /// The keys of the context types the wrapped handler declares.
    pub open spec fn declared_keys(&self) -> Seq<u64> {
        seq![self.context.0]
    }

    /// Whether the wrapped handler may be called on `args` and the value
    /// the store holds for its declared key.
    pub open spec fn can_call<V, A>(&self, args: A, store: Map<u64, V>) -> bool where
        F: for<'a>FnOnce(A, &'a V) -> CommandResult,
     {
        forall|v: &V| *v == store[self.context.0] ==> call_requires(self.function, (args, v))
    }

    /// What holds of a completed invocation: `out` is a possible outcome
    /// of the wrapped handler applied to `args` and the exact value the
    /// store holds for the declared key.
    pub open spec fn handler_post<V, A>(
        &self,
        args: A,
        store: Map<u64, V>,
        out: CommandResult,
    ) -> bool where F: for<'a>FnOnce(A, &'a V) -> CommandResult {
        exists|v: &V| *v == store[self.context.0] && call_ensures(self.function, (args, v), out)
    }

    /// Invokes the wrapped handler on `args`, resolving its declared
    /// context parameter from `contexts` first.  A declared key that was
    /// never registered is reported as missing, and the handler is not
    /// called at all.
    pub fn run<V, A>(self, args: A, contexts: &ContextProvider<V>) -> (r: Result<
        CommandResult,
        ContextError,
    >) where F: for<'a>FnOnce(A, &'a V) -> CommandResult
        requires
            self.can_call(args, contexts@),
        ensures
            r is Ok <==> contexts@.contains_key(self.context.0),
            r matches Err(e) ==> e == (ContextError::MissingContext { key: self.context.0 }),
            r matches Ok(out) ==> self.handler_post(args, contexts@, out),
    {
        let key = self.context.0;
        if !contexts.contains(key) {
            return Err(ContextError::MissingContext { key });
        }
        let resolved: crate::context::parameter::Context<V> =
            crate::context::parameter::Context::retrieve(contexts, key);
        let out = (self.function)(args, resolved.get());
        Ok(out)
    }
}

impl<F> InjectableCommand<F, (u64, u64)> {
    /// The keys of the context types the wrapped handler declares, in
    /// declaration order.
    pub open spec fn declared_keys(&self) -> Seq<u64> {
        seq![self.context.0, self.context.1]
    }

    /// Whether the wrapped handler may be called on `args` and the values
    /// the store holds for its declared keys.
    pub open spec fn can_call<V, A>(&self, args: A, store: Map<u64, V>) -> bool where
        F: for<'a, 'b>FnOnce(A, &'a V, &'b V) -> CommandResult,
     {
        forall|v1: &V, v2: &V|
            *v1 == store[self.context.0] && *v2 == store[self.context.1] ==> call_requires(
                self.function,
                (args, v1, v2),
            )
    }

    /// What holds of a completed invocation: `out` is a possible outcome
    /// of the wrapped handler applied to `args` and the exact values the
    /// store holds for the declared keys, in declaration order.
    pub open spec fn handler_post<V, A>(
        &self,
        args: A,
        store: Map<u64, V>,
        out: CommandResult,
    ) -> bool where F: for<'a, 'b>FnOnce(A, &'a V, &'b V) -> CommandResult {
        exists|v1: &V, v2: &V|
            *v1 == store[self.context.0] && *v2 == store[self.context.1] && call_ensures(
                self.function,
                (args, v1, v2),
                out,
            )
    }

    /// Invokes the wrapped handler on `args`, resolving its declared
    /// context parameters from `contexts` in declaration order first.  The
    /// first declared key that was never registered is reported as
    /// missing, and the handler is not called at all.
    pub fn run<V, A>(self, args: A, contexts: &ContextProvider<V>) -> (r: Result<
        CommandResult,
        ContextError,
    >) where F: for<'a, 'b>FnOnce(A, &'a V, &'b V) -> CommandResult
        requires
            self.can_call(args, contexts@),
        ensures
            r is Ok <==> contexts@.contains_key(self.context.0) && contexts@.contains_key(
                self.context.1,
            ),
            r matches Err(e) ==> (e == (ContextError::MissingContext { key: self.context.0 })
                && !contexts@.contains_key(self.context.0)) || (e == (ContextError::MissingContext {
                key: self.context.1,
            }) && !contexts@.contains_key(self.context.1)),
            r matches Ok(out) ==> self.handler_post(args, contexts@, out),
    {
        let key0 = self.context.0;
        let key1 = self.context.1;
        if !contexts.contains(key0) {
            return Err(ContextError::MissingContext { key: key0 });
        }
        if !contexts.contains(key1) {
            return Err(ContextError::MissingContext { key: key1 });
        }
        let first: crate::context::parameter::Context<V> =
            crate::context::parameter::Context::retrieve(contexts, key0);
        let second: crate::context::parameter::Context<V> =
            crate::context::parameter::Context::retrieve(contexts, key1);
        let out = (self.function)(args, first.get(), second.get());
        Ok(out)
    }
}

/// A command that can be invoked with parsed arguments and a context store.
///
/// Invocation resolves every declared context dependency before the handler
/// runs: if any declared key was never registered, the invocation reports
/// a missing key and the handler is not called at all.  The trait carries
/// the same contract as the concrete invocation paths on
/// `InjectableCommand`, abstracted over the command's shape.
pub trait Command<V, A>: Sized {
    /// The keys of the context types the wrapped handler declares, in
    /// declaration order.
    spec fn keys(&self) -> Seq<u64>;

    /// Whether the wrapped handler may be called on `args` and the values
    /// that `store` holds for the declared keys.
    spec fn pre(&self, args: A, store: Map<u64, V>) -> bool;

    /// What holds of a completed invocation.
    spec fn post(&self, args: A, store: Map<u64, V>, out: CommandResult) -> bool;

    /// Invokes the wrapped handler on `args`, resolving each declared
    /// context parameter from `contexts` first.
    fn dispatch_run(self, args: A, contexts: &ContextProvider<V>) -> (r: Result<
        CommandResult,
        ContextError,
    >)
        requires
            self.pre(args, contexts@),
        ensures
            (r is Ok) <==> (forall|i: int|
                0 <= i < self.keys().len() ==> contexts@.contains_key(#[trigger] self.keys()[i])),
            r matches Err(ContextError::MissingContext { key }) ==> self.keys().contains(key)
                && !contexts@.contains_key(key),
            r matches Ok(out) ==> self.post(args, contexts@, out),
    ;
}

/// Conversion of a plain handler (or of a handler paired with the keys of
/// its declared context types) into a `Command`.
pub trait IntoCommand<V, A, C>: Sized {
    type Command: Command<V, A>;

    /// The command this value converts into, as an abstract value.
    spec fn as_command(self) -> Self::Command;

    /// Performs the conversion.
    fn into_command(self) -> (c: Self::Command)
        ensures
            c == self.as_command(),
    ;
}

impl<V, A, F: FnOnce(A) -> CommandResult> Command<V, A> for InjectableCommand<F, ()> {
    open spec fn keys(&self) -> Seq<u64> {
        Seq::empty()
    }

    open spec fn pre(&self, args: A, store: Map<u64, V>) -> bool {
        call_requires(self.function, (args,))
    }

    open spec fn post(&self, args: A, store: Map<u64, V>, out: CommandResult) -> bool {
        call_ensures(self.function, (args,), out)
    }

    fn dispatch_run(self, args: A, contexts: &ContextProvider<V>) -> (r: Result<
        CommandResult,
        ContextError,
    >) {
        self.run(args, contexts)
    }
}

impl<V, A, F: for<'a>FnOnce(A, &'a V) -> CommandResult> Command<V, A> for InjectableCommand<
    F,
    (u64,),
> {
    open spec fn keys(&self) -> Seq<u64> {
        seq![self.context.0]
    }

    open spec fn pre(&self, args: A, store: Map<u64, V>) -> bool {
        forall|v: &V| *v == store[self.context.0] ==> call_requires(self.function, (args, v))
    }

    open spec fn post(&self, args: A, store: Map<u64, V>, out: CommandResult) -> bool {
        exists|v: &V| *v == store[self.context.0] && call_ensures(self.function, (args, v), out)
    }

    fn dispatch_run(self, args: A, contexts: &ContextProvider<V>) -> (r: Result<
        CommandResult,
        ContextError,
    >) {
        let ghost key = self.context.0;
        let r = self.run(args, contexts);
        proof {
            let ks = seq![self.context.0];
            assert(self.keys() == ks);
            assert(ks[0] == key);
            if contexts@.contains_key(key) {
                assert(forall|i: int|
                    0 <= i < ks.len() ==> contexts@.contains_key(#[trigger] ks[i]));
            } else {
                assert(!contexts@.contains_key(ks[0]));
                assert(!(forall|i: int|
                    0 <= i < ks.len() ==> contexts@.contains_key(#[trigger] ks[i])));
            }
        }
        r
    }
}

impl<V, A, F: for<'a, 'b>FnOnce(A, &'a V, &'b V) -> CommandResult> Command<V, A> for InjectableCommand<
    F,
    (u64, u64),
> {
    open spec fn keys(&self) -> Seq<u64> {
        seq![self.context.0, self.context.1]
    }

    open spec fn pre(&self, args: A, store: Map<u64, V>) -> bool {
        forall|v1: &V, v2: &V|
            *v1 == store[self.context.0] && *v2 == store[self.context.1] ==> call_requires(
                self.function,
                (args, v1, v2),
            )
    }

    open spec fn post(&self, args: A, store: Map<u64, V>, out: CommandResult) -> bool {
        exists|v1: &V, v2: &V|
            *v1 == store[self.context.0] && *v2 == store[self.context.1] && call_ensures(
                self.function,
                (args, v1, v2),
                out,
            )
    }

    fn dispatch_run(self, args: A, contexts: &ContextProvider<V>) -> (r: Result<
        CommandResult,
        ContextError,
    >) {
        let ghost key0 = self.context.0;
        let ghost key1 = self.context.1;
        let r = self.run(args, contexts);
        proof {
            let ks = seq![self.context.0, self.context.1];
            assert(self.keys() == ks);
            assert(ks[0] == key0);
            assert(ks[1] == key1);
            if contexts@.contains_key(key0) && contexts@.contains_key(key1) {
                assert forall|i: int|
                    0 <= i < ks.len() implies contexts@.contains_key(#[trigger] ks[i]) by {
                    if i == 0 {
                        assert(ks[0] == key0);
                    } else {
                        assert(ks[1] == key1);
                    }
                }
            } else {
                if !contexts@.contains_key(key0) {
                    assert(!contexts@.contains_key(ks[0]));
                } else {
                    assert(!contexts@.contains_key(ks[1]));
                }
                assert(!(forall|i: int|
                    0 <= i < ks.len() ==> contexts@.contains_key(#[trigger] ks[i])));
            }
        }
        r
    }
}

impl<V, A, F: FnOnce(A) -> CommandResult> IntoCommand<V, A, ()> for F {
    type Command = InjectableCommand<F, ()>;

    open spec fn as_command(self) -> InjectableCommand<F, ()> {
        InjectableCommand { function: self, context: () }
    }

    fn into_command(self) -> (c: InjectableCommand<F, ()>) {
        InjectableCommand { function: self, context: () }
    }
}

impl<V, A, F: for<'a>FnOnce(A, &'a V) -> CommandResult> IntoCommand<V, A, (u64,)> for (F, u64) {
    type Command = InjectableCommand<F, (u64,)>;

    open spec fn as_command(self) -> InjectableCommand<F, (u64,)> {
        InjectableCommand { function: self.0, context: (self.1,) }
    }

    fn into_command(self) -> (c: InjectableCommand<F, (u64,)>) {
        InjectableCommand { function: self.0, context: (self.1,) }
    }
}

impl<V, A, F: for<'a, 'b>FnOnce(A, &'a V, &'b V) -> CommandResult> IntoCommand<
    V,
    A,
    (u64, u64),
> for (F, u64, u64) {
    type Command = InjectableCommand<F, (u64, u64)>;

    open spec fn as_command(self) -> InjectableCommand<F, (u64, u64)> {
        InjectableCommand { function: self.0, context: (self.1, self.2) }
    }

    fn into_command(self) -> (c: InjectableCommand<F, (u64, u64)>) {
        InjectableCommand { function: self.0, context: (self.1, self.2) }
    }
}

} // verus!
