use crate::handle::Handle;
use crate::trace::Trace;
use vstd::prelude::*;

verus! {

/// A tagged payload: scalars, text, aggregates, and references to cells.
#[derive(Debug)]
pub enum Value {
    /// The content of a freshly allocated cell, not yet written.
    Uninit,
    Int(i64),
    /// A floating-point number, held as its IEEE-754 bit pattern.
    Float(u64),
    String(String),
    /// An ordered sequence of values (a tuple or a record).
    Product(Vec<Value>),
    /// A reference to a cell of the collector.
    Ref(Handle),
}

/// The handles embedded in a sequence of values, element after element.
pub open spec fn edges_of(s: Seq<Value>) -> Seq<Handle>
    decreases s,
{
    if s.len() == 0 {
        Seq::empty()
    } else {
        edges_of(s.subrange(0, s.len() - 1)) + value_edges(s[s.len() - 1])
    }
}

/// The handles embedded in a value: a `Ref` holds one, a `Product` those of its
/// elements in order, every other variant none.
pub open spec fn value_edges(v: Value) -> Seq<Handle>
    decreases v,
{
    match v {
        Value::Ref(h) => seq![h],
        Value::Product(xs) => {
            proof {
                assert(decreases_to!(v => xs));
            }
            edges_of(xs@)
        },
        _ => Seq::empty(),
    }
}

impl Trace for Value {
    open spec fn edges(&self) -> Seq<Handle> {
        value_edges(*self)
    }

    fn trace(&self, out: &mut Vec<Handle>)
        decreases self,
    {
        match self {
            Value::Ref(h) => {
                out.push(*h);
            },
            Value::Product(xs) => {
                let ghost start = out@;
                let mut i: usize = 0;
                while i < xs.len()
                    invariant
                        i <= xs@.len(),
                        *self == Value::Product(*xs),
                        out@ == start + edges_of(xs@.subrange(0, i as int)),
                    decreases xs.len() - i,
                {
                    assert(xs@.subrange(0, i + 1).subrange(0, i as int) == xs@.subrange(0, i as int));
                    proof {
                        broadcast use vstd::std_specs::vec::axiom_vec_index_decreases;
                        assert(decreases_to!(*self => self->Product_0));
                    }
                    xs[i].trace(out);
                    i += 1;
                }
                assert(xs@.subrange(0, xs@.len() as int) == xs@);
            },
            _ => {},
        }
    }

    open spec fn initial() -> Value {
        Value::Uninit
    }

    fn uninit() -> (r: Value) {
        Value::Uninit
    }
}

impl Value {
    /// The handle held by a `Ref`, or `None` for every other variant.
    pub fn as_handle(&self) -> (r: Option<Handle>)
        ensures
            r == (match *self {
                Value::Ref(h) => Some(h),
                _ => None,
            }),
    {
        match self {
            Value::Ref(h) => Some(*h),
            _ => None,
        }
    }
}

} // verus!
