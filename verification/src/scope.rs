use vstd::prelude::*;

use crate::error::{ErrV, Error};
use crate::registry::TypeTagServer;
use crate::store::{Store, StoreV};

verus! {

/// The context scope: a call-extent binding of the store, its type-tag
/// registry, and (during decode) the stack of entities currently being
/// materialized. Protocol operations reach the store only through a scope;
/// one invoked on an unbound scope fails with `ScopeError` rather than
/// reading stale or default state.
///
/// Binding takes the store by ownership, so the bound store is exclusively
/// the scope's for the binding's whole extent, and a second store cannot be
/// bound over it; `unbind` hands both back.
pub struct Scope {
    pub bound: bool,
    pub store: Store,
    pub server: TypeTagServer,
    pub cursor: Vec<u64>,
}

impl Scope {
    pub open spec fn is_bound(self) -> bool {
        self.bound
    }

    pub open spec fn store_v(self) -> StoreV {
        self.store@
    }

    pub open spec fn registry(self) -> Map<(u64, Seq<char>), u64> {
        self.server.entries()
    }

    pub open spec fn cursor_v(self) -> Seq<u64> {
        self.cursor@
    }

    pub open spec fn wf(self) -> bool {
        self.store@.wf()
    }

    /// An unbound scope: every protocol operation refuses it with `ScopeError`.
    pub fn new() -> (s: Scope)
        ensures
            !s.is_bound(),
            s.wf(),
            s.cursor_v() == Seq::<u64>::empty(),
    {
        Scope {
            bound: false,
            store: Store::new(),
            server: TypeTagServer::new(),
            cursor: Vec::new(),
        }
    }

    /// Creates the one binding of a serialize/deserialize operation: the store
    /// and registry are owned by the scope until `unbind`.
    pub fn bind(store: Store, server: TypeTagServer) -> (s: Scope)
        ensures
            s.is_bound(),
            s.store_v() == store@,
            s.registry() == server.entries(),
            s.cursor_v() == Seq::<u64>::empty(),
    {
        Scope { bound: true, store, server, cursor: Vec::new() }
    }

    /// Tears the binding down, handing the store and registry back. Unbinding
    /// a scope that was never bound is a logic error, so it is ruled out here
    /// rather than reported.
    pub fn unbind(self) -> (r: (Store, TypeTagServer))
        requires
            self.is_bound(),
        ensures
            r.0@ == self.store_v(),
            r.1.entries() == self.registry(),
    {
        (self.store, self.server)
    }

    /// Exposes the entity currently being materialized to nested decoders,
    /// for the extent of one document's decode.
    pub fn bind_entity(&mut self, e: u64)
        requires
            old(self).is_bound(),
        ensures
            final(self).is_bound(),
            final(self).store_v() == old(self).store_v(),
            final(self).registry() == old(self).registry(),
            final(self).cursor_v() == old(self).cursor_v().push(e),
    {
        self.cursor.push(e);
    }

    /// Removes the innermost entity binding.
    pub fn unbind_entity(&mut self)
        requires
            old(self).is_bound(),
            old(self).cursor_v().len() > 0,
        ensures
            final(self).is_bound(),
            final(self).store_v() == old(self).store_v(),
            final(self).registry() == old(self).registry(),
            final(self).cursor_v() == old(self).cursor_v().drop_last(),
    {
        let _ = self.cursor.pop();
    }

    /// The entity the innermost document decode is materializing into; fails
    /// with `ScopeError` outside any binding, never with a default.
    pub fn current_entity(&self) -> (r: Result<u64, Error>)
        ensures
            match r {
                Ok(e) => self.is_bound() && self.cursor_v().len() > 0 && e
                    == self.cursor_v().last(),
                Err(er) => (!self.is_bound() || self.cursor_v().len() == 0) && er@
                    == ErrV::ScopeError,
            },
    {
        if !self.bound {
            return Err(Error::ScopeError);
        }
        if self.cursor.len() == 0 {
            return Err(Error::ScopeError);
        }
        Ok(self.cursor[self.cursor.len() - 1])
    }
}

} // verus!
