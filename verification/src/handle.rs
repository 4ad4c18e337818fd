//! The message handle behind the C-callable embedding shim: an address
//! plus an ordered argument list, built up one argument at a time and
//! read out as the adapter's message-shaped map. The pointer handling
//! itself lives outside the library; every operation here reports its
//! outcome through [`OscFfiError`].

use vstd::prelude::*;

use crate::adapter::{message_map_spec, message_to_ir_map};
use crate::ir::{vals_view, IrValS, IrValue};

verus! {

/// Status of an embedding-shim operation.
#[derive(Clone, Copy, Debug, PartialEq, Eq, Structural)]
pub enum OscFfiError {
    Success,
    NullPointer,
    InvalidUtf8,
    SerializationError,
    InternalError,
}

/// An address plus an ordered argument list under construction.
#[derive(Debug)]
pub struct OscMessageHandle {
    address: String,
    args: Vec<IrValue>,
}

impl OscMessageHandle {
    /// The address the handle was created with.
    pub closed spec fn spec_address(&self) -> Seq<char> {
        self.address@
    }

    /// The arguments appended so far, in order.
    pub closed spec fn spec_args(&self) -> Seq<IrValS> {
        vals_view(self.args@)
    }

    /// Creates a handle for an address, with no arguments yet.
    pub fn new(address: String) -> (r: Self)
        ensures
            r.spec_address() == address@,
            r.spec_args() == Seq::<IrValS>::empty(),
    {
        let r = Self { address, args: Vec::new() };
        proof {
            assert(vals_view(r.args@) =~= Seq::<IrValS>::empty());
        }
        r
    }

    /// Appends one argument; reports an internal error instead if the
    /// argument list cannot grow.
    pub fn push_arg(&mut self, value: IrValue) -> (r: OscFfiError)
        ensures
            final(self).spec_address() == old(self).spec_address(),
            r is Success ==> final(self).spec_args() == old(self).spec_args().push(value@),
            !(r is Success) ==> r is InternalError && final(self).spec_args() == old(
                self,
            ).spec_args(),
    {
        let ghost v = value@;
        if self.args.try_reserve(1).is_err() {
            return OscFfiError::InternalError;
        }
        self.args.push(value);
        proof {
            crate::ir::lemma_vals_view(self.args@);
            crate::ir::lemma_vals_view(old(self).args@);
            assert(vals_view(self.args@) =~= vals_view(old(self).args@).push(v));
        }
        OscFfiError::Success
    }

    /// The handle's contents as the adapter's message-shaped map.
    pub fn to_ir_value(&self) -> (r: IrValue)
        ensures
            r@ == message_map_spec(self.spec_address(), self.spec_args()),
    {
        let args = clone_args(&self.args);
        message_to_ir_map(self.address.as_str(), args)
    }
}

/// Copies an argument list; the copy has the same model.
#[verifier::loop_isolation(false)]
fn clone_args(xs: &Vec<IrValue>) -> (r: Vec<IrValue>)
    ensures
        vals_view(r@) == vals_view(xs@),
{
    broadcast use crate::ir::lemma_vals_view;

    let mut out: Vec<IrValue> = Vec::new();
    let mut i: usize = 0;
    while i < xs.len()
        invariant
            i <= xs@.len(),
            out@.len() == i,
            forall|k: int| 0 <= k < i ==> out@[k]@ == xs@[k]@,
        decreases xs@.len() - i,
    {
        out.push(xs[i].clone());
        i = i + 1;
    }
    proof {
        assert(vals_view(out@) =~= vals_view(xs@));
    }
    out
}

} // verus!
