//! The ordered replacement table: value `i` fills placeholder id `i`.

use vstd::prelude::*;
use vstd::string::StringSliceAdditionalSpecFns;
use crate::value::{Value, spec_text_payload};

verus! {

/// Values to fill in placeholders during rendering.
///
/// The order is important: index `i` corresponds to the pattern id `i` that
/// the placeholder automaton assigns.
#[derive(Debug)]
pub struct Replacements {
    values: Vec<Value>,
}

impl Clone for Replacements {
    /// A copy carries the same payloads in the same order.
    fn clone(&self) -> (r: Self)
        ensures
            r@ == self@,
    {
        let mut values: Vec<Value> = Vec::new();
        let mut i: usize = 0;
        while i < self.values.len()
            invariant
                0 <= i <= self.values.len(),
                values@.len() == i,
                forall|k: int| 0 <= k < i ==> (#[trigger] values@[k])@ == self.values@[k]@,
            decreases self.values.len() - i,
        {
            values.push(self.values[i].clone());
            i += 1;
        }
        proof {
            assert forall|k: int| 0 <= k < values@.len() implies values.deep_view()[k]
                == self.values.deep_view()[k] by {
                assert(values@[k]@ == self.values@[k]@);
            }
            assert(values.deep_view() =~= self.values.deep_view());
        }
        Replacements { values }
    }
}

impl View for Replacements {
    type V = Seq<Seq<u8>>;

    /// A replacement table is, abstractly, the payload bytes per pattern id.
    closed spec fn view(&self) -> Seq<Seq<u8>> {
        self.values.deep_view()
    }
}

impl Replacements {
    /// A table over already-built values, in their order.
    pub fn from_slice(values: Vec<Value>) -> (r: Self)
        ensures
            r@ == values.deep_view(),
    {
        Replacements { values }
    }

    /// A table of escaped text values, one per string, in their order.
    pub fn from_iter(items: Vec<&str>) -> (r: Self)
        ensures
            r@ == items@.map_values(|s: &str| spec_text_payload(s.spec_bytes())),
    {
        let mut values: Vec<Value> = Vec::new();
        let mut i: usize = 0;
        while i < items.len()
            invariant
                0 <= i <= items@.len(),
                values@.len() == i,
                forall|k: int| 0 <= k < i ==> (#[trigger] values@[k])@ == spec_text_payload(
                    items@[k].spec_bytes(),
                ),
            decreases items@.len() - i,
        {
            values.push(Value::from_text(items[i]));
            i += 1;
        }
        proof {
            assert forall|k: int| 0 <= k < items@.len() implies values.deep_view()[k]
                == items@.map_values(|s: &str| spec_text_payload(s.spec_bytes()))[k] by {
                assert(values@[k]@ == spec_text_payload(items@[k].spec_bytes()));
            }
            assert(values.deep_view() =~= items@.map_values(
                |s: &str| spec_text_payload(s.spec_bytes()),
            ));
        }
        Replacements { values }
    }

    /// An empty table: the only table consistent with an empty placeholder
    /// set.
    pub fn new() -> (r: Self)
        ensures
            r@ == Seq::<Seq<u8>>::empty(),
    {
        let values: Vec<Value> = Vec::new();
        proof {
            assert(values.deep_view() =~= Seq::<Seq<u8>>::empty());
        }
        Replacements { values }
    }

    /// How many values the table holds.
    pub fn len(&self) -> (r: usize)
        ensures
            r == self@.len(),
    {
        self.values.len()
    }

    /// The value for pattern id `index`.
    pub fn get(&self, index: usize) -> (r: &Value)
        requires
            index < self@.len(),
        ensures
            r@ == self@[index as int],
    {
        &self.values[index]
    }
}

} // verus!
