use vstd::prelude::*;
use crate::matcher;

verus! {

/// The slots of a match: `(start, end)` for each group, group 0 being the
/// whole match. Up to three are held inline.
#[derive(Clone, Debug)]
pub enum Slots {
    Inline3([Option<(usize, usize)>; 3]),
    Heap(matcher::Slots),
}

impl View for Slots {
    type V = Seq<Option<(usize, usize)>>;

    open spec fn view(&self) -> Seq<Option<(usize, usize)>> {
        match self {
            Slots::Inline3(a) => a@,
            Slots::Heap(v) => v@,
        }
    }
}

impl Slots {
    /// The span of group `i`, if it took part in the match.
    pub fn get(&self, i: usize) -> (r: Option<(usize, usize)>)
        ensures
            r == (if i < self@.len() {
                self@[i as int]
            } else {
                None
            }),
    {
        match self {
            Slots::Inline3(slots) => {
                if i < 3 {
                    slots[i]
                } else {
                    None
                }
            },
            Slots::Heap(slots) => {
                if i < slots.len() {
                    slots[i]
                } else {
                    None
                }
            },
        }
    }

    /// A copy of these slots.
    pub fn copy(&self) -> (r: Slots)
        ensures
            r@ == self@,
    {
        match self {
            Slots::Inline3(a) => Slots::Inline3(*a),
            Slots::Heap(v) => Slots::Heap(matcher::copy_slots(v)),
        }
    }

    /// The number of slots.
    pub fn len(&self) -> (r: usize)
        ensures
            r == self@.len(),
    {
        match self {
            Slots::Inline3(_) => 3,
            Slots::Heap(slots) => slots.len(),
        }
    }
}

} // verus!
