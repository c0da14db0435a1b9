use crate::enums::Container;
use crate::model::{cell_assigned, cell_axis_set, cell_guessed, cell_with_potentials, CellModel};
use vstd::prelude::*;

verus! {

/// One grid position: its fixed wiring (`id` and the three group ids), its
/// value (`0` for empty), the candidate lists derived for it, and the values
/// already guessed here that led to dead ends.
#[derive(Debug, Clone, PartialEq, Eq)]
pub struct Square {
    pub id: usize,
    pub value: usize,
    pub potentials: Vec<usize>,
    pub line_potentials: Vec<usize>,
    pub column_potentials: Vec<usize>,
    pub box_potentials: Vec<usize>,
    pub abox_id: usize,
    pub line_id: usize,
    pub column_id: usize,
    pub history: Vec<usize>,
}

impl View for Square {
    type V = CellModel;

    open spec fn view(&self) -> CellModel {
        CellModel {
            id: self.id as int,
            value: self.value,
            potentials: self.potentials@,
            line_potentials: self.line_potentials@,
            column_potentials: self.column_potentials@,
            box_potentials: self.box_potentials@,
            abox_id: self.abox_id as int,
            line_id: self.line_id as int,
            column_id: self.column_id as int,
            history: self.history@,
        }
    }
}

impl Square {
    /// Commit `value` to this square and clear every candidate list.
    pub fn set_value(&mut self, value: usize)
        ensures
            final(self)@ == cell_assigned(old(self)@, value),
    {
        self.value = value;
        self.potentials = Vec::new();
        self.line_potentials = Vec::new();
        self.column_potentials = Vec::new();
        self.box_potentials = Vec::new();
        proof {
            assert(self@ =~= cell_assigned(old(self)@, value));
        }
    }

    /// Guess `value` at this square: as `set_value`, and the guess is
    /// recorded in the history so it is never tried here again.
    pub fn set_value_guess(&mut self, value: usize)
        ensures
            final(self)@ == cell_guessed(old(self)@, value),
    {
        self.value = value;
        self.potentials = Vec::new();
        self.line_potentials = Vec::new();
        self.column_potentials = Vec::new();
        self.box_potentials = Vec::new();
        self.history.push(value);
        proof {
            assert(self@ =~= cell_guessed(old(self)@, value));
        }
    }

    /// Replace the pruned candidate list.
    pub fn set_potentials(&mut self, value: Vec<usize>)
        ensures
            final(self)@ == cell_with_potentials(old(self)@, value@),
    {
        self.potentials = value;
        proof {
            assert(self@ =~= cell_with_potentials(old(self)@, self.potentials@));
        }
    }

    /// Replace the per-axis candidate list selected by `target`.
    pub fn update(&mut self, target: Container, value: Vec<usize>)
        ensures
            final(self)@ == cell_axis_set(old(self)@, target, value@),
    {
        match target {
            Container::LINE => {
                self.line_potentials = value;
                proof {
                    assert(self@ =~= cell_axis_set(old(self)@, target, self.line_potentials@));
                }
            },
            Container::COLUMN => {
                self.column_potentials = value;
                proof {
                    assert(self@ =~= cell_axis_set(old(self)@, target, self.column_potentials@));
                }
            },
            Container::ABOX => {
                self.box_potentials = value;
                proof {
                    assert(self@ =~= cell_axis_set(old(self)@, target, self.box_potentials@));
                }
            },
        }
    }

    /// The pruned candidate list, or `None` while it is empty.
    pub fn get_potentials(&self) -> (r: Option<&Vec<usize>>)
        ensures
            (r is None) <==> self.potentials@.len() == 0,
            r matches Some(p) ==> p@ == self.potentials@,
    {
        if !self.potentials.is_empty() {
            Some(&self.potentials)
        } else {
            None
        }
    }
}

} // verus!
