use crate::helpers::remove_element;
use crate::model::{group_took, GroupModel};
use vstd::prelude::*;

verus! {

/// A row of nine squares: its member cell ids (fixed at construction) and
/// the digits already placed (`_taken`) and still missing (`_remaining`)
/// within it.
#[derive(Debug, Clone, PartialEq, Eq)]
pub struct Line {
    pub _id: usize,
    pub _taken: Vec<usize>,
    pub _remaining: Vec<usize>,
    pub _squares: Vec<usize>,
}

impl View for Line {
    type V = GroupModel;

    open spec fn view(&self) -> GroupModel {
        GroupModel {
            id: self._id as int,
            taken: self._taken@,
            remaining: self._remaining@,
            squares: self._squares@,
        }
    }
}

impl Line {
    /// A new row with the given member cell ids and empty digit sets.
    pub fn new(id: usize, square_ids: Vec<usize>) -> (r: Line)
        ensures
            r@ == (GroupModel {
                id: id as int,
                taken: Seq::empty(),
                remaining: Seq::empty(),
                squares: square_ids@,
            }),
    {
        let r = Line { _id: id, _taken: Vec::new(), _remaining: Vec::new(), _squares: square_ids };
        proof {
            assert(r@ =~= (GroupModel {
                id: id as int,
                taken: Seq::empty(),
                remaining: Seq::empty(),
                squares: r._squares@,
            }));
        }
        r
    }

    /// The member cell ids, in order.
    pub fn get_square_ids(&self) -> (r: Vec<usize>)
        ensures
            r@ == self._squares@,
    {
        let mut result: Vec<usize> = Vec::new();
        let mut k: usize = 0;
        while k < self._squares.len()
            invariant
                0 <= k <= self._squares@.len(),
                result@ == self._squares@.take(k as int),
            decreases self._squares@.len() - k,
        {
            result.push(self._squares[k]);
            proof {
                assert(result@ =~= self._squares@.take(k + 1));
            }
            k += 1;
        }
        proof {
            assert(result@ =~= self._squares@);
        }
        result
    }

    /// Record that `value` is now placed in this row.
    pub fn set_taken(&mut self, value: usize)
        ensures
            final(self)@ == group_took(old(self)@, value),
    {
        self._taken.push(value);
        remove_element(value, &mut self._remaining);
        proof {
            assert(self@ =~= group_took(old(self)@, value));
        }
    }
}

} // verus!
