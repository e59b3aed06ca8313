//! The create path: a new board from a creation request.
//!
//! A creation request carries only the display name. The new board gets a
//! fresh identifier and creation time from the caller (the shell generates
//! them at its edge), version 0, and no lists.

use vstd::prelude::*;
use crate::boards::{Board, BoardModel};

verus! {

/// A creation request: the new board's display name.
#[derive(Debug, PartialEq, Eq)]
pub struct BoardDTO {
    pub name: String,
}

/// Mathematical image of a creation request.
#[verifier::ext_equal]
pub ghost struct NewBoardModel {
    pub name: Seq<char>,
}

impl View for BoardDTO {
    type V = NewBoardModel;

    open spec fn view(&self) -> NewBoardModel {
        NewBoardModel { name: self.name@ }
    }
}

/// The board a creation request becomes: version 0, no lists, the caller's
/// fresh identifier and creation time.
pub fn board_from_dto(dto: BoardDTO, id: u128, created_at: u64) -> (b: Board)
    ensures
        b@ == (BoardModel {
            id,
            version: 0,
            created_at,
            name: dto.name@,
            lists: Seq::empty(),
        }),
{
    let b = Board::new(id, created_at, dto.name, Vec::new());
    proof {
        assert(b@.lists =~= Seq::<crate::boards::TaskListModel>::empty());
        assert(b@ =~= (BoardModel {
            id,
            version: 0,
            created_at,
            name: b@.name,
            lists: Seq::empty(),
        }));
    }
    b
}

} // verus!
