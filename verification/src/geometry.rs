//! The table of orientations that a search may place, for one field height.

use crate::board::MAX_HEIGHT;
use crate::piece::PieceState;
use vstd::prelude::*;

verus! {

/// Why a search was not started.
#[derive(Clone, Copy, Debug, PartialEq, Eq, Structural)]
pub enum ConfigError {
    /// The height is larger than a board can hold.
    HeightTooLarge,
    /// The orientation at this position of the table has no cell, or a cell
    /// outside its width or at or above the height.
    BadOrientation(usize),
    /// The height of the search is not the height of the geometry.
    HeightMismatch,
    /// The board has a filled cell at or above the height of the search.
    BoardOutOfField,
}

impl ConfigError {
    /// What went wrong, in words.
    pub open spec fn spec_message(self) -> Seq<char> {
        match self {
            ConfigError::HeightTooLarge => "the height is larger than a board can hold"@,
            ConfigError::BadOrientation(_) => "an orientation of the table does not fit the field"@,
            ConfigError::HeightMismatch => "the height is not the height of the geometry"@,
            ConfigError::BoardOutOfField => "the board has a filled cell outside the field"@,
        }
    }

    /// What went wrong, in words.
    pub fn message(&self) -> (r: &'static str)
        ensures
            r@ == self.spec_message(),
    {
        match self {
            ConfigError::HeightTooLarge => "the height is larger than a board can hold",
            ConfigError::BadOrientation(_) => "an orientation of the table does not fit the field",
            ConfigError::HeightMismatch => "the height is not the height of the geometry",
            ConfigError::BoardOutOfField => "the board has a filled cell outside the field",
        }
    }
}

/// The orientations that may be placed on a field of a given height, in the
/// order in which the search tries them.
pub struct Geometry {
    height: usize,
    states: Vec<PieceState>,
}

impl View for Geometry {
    type V = Seq<PieceState>;

    /// The orientations, in table order.
    closed spec fn view(&self) -> Seq<PieceState> {
        self.states@
    }
}

impl Geometry {
    /// The height of the field that the table was made for.
    pub closed spec fn spec_height(&self) -> usize {
        self.height
    }

    /// The height is one that a board can hold, and every orientation of the
    /// table fits a field of that height.
    #[verifier::type_invariant]
    pub closed spec fn wf(&self) -> bool {
        &&& self.height <= MAX_HEIGHT
        &&& forall|i: int| 0 <= i < self.states@.len() ==> (#[trigger] self.states@[i]).fits(self.height as int)
    }

    /// What well-formedness says, over the public view.
    pub proof fn lemma_wf(&self)
        requires
            self.wf(),
        ensures
            self.spec_height() <= MAX_HEIGHT,
            forall|i: int| 0 <= i < self@.len() ==> (#[trigger] self@[i]).fits(self.spec_height() as int),
    {
    }

    /// A geometry for fields of `height` rows that offers `states`.
    ///
    /// Fails when the height is more than six, and else when some orientation
    /// does not fit such a field; the error names the first one.
    pub fn new(height: usize, states: Vec<PieceState>) -> (r: Result<Geometry, ConfigError>)
        ensures
            r matches Ok(g) ==> g.wf() && g.spec_height() == height && g@ == states@,
            r is Ok <==> height <= MAX_HEIGHT && forall|i: int|
                0 <= i < states@.len() ==> (#[trigger] states@[i]).fits(height as int),
            r == Err::<Geometry, ConfigError>(ConfigError::HeightTooLarge) <==> height > MAX_HEIGHT,
            r matches Err(ConfigError::BadOrientation(k)) ==> {
                &&& height <= MAX_HEIGHT
                &&& k < states@.len()
                &&& !states@[k as int].fits(height as int)
                &&& forall|i: int| 0 <= i < k ==> (#[trigger] states@[i]).fits(height as int)
            },
            r matches Err(e) ==> e is HeightTooLarge || e is BadOrientation,
    {
        if height > MAX_HEIGHT {
            return Err(ConfigError::HeightTooLarge);
        }
        let mut i: usize = 0;
        while i < states.len()
            invariant
                height <= MAX_HEIGHT,
                i <= states@.len(),
                forall|k: int| 0 <= k < i ==> (#[trigger] states@[k]).fits(height as int),
            decreases states@.len() - i,
        {
            if !states[i].is_valid(height) {
                return Err(ConfigError::BadOrientation(i));
            }
            i += 1;
        }
        Ok(Geometry { height, states })
    }

    /// The height of the field that the table was made for.
    pub fn height(&self) -> (r: usize)
        ensures
            r == self.spec_height(),
            r <= MAX_HEIGHT,
    {
        proof {
            use_type_invariant(self);
        }
        self.height
    }

    /// Number of orientations in the table.
    pub fn len(&self) -> (r: usize)
        ensures
            r == self@.len(),
    {
        self.states.len()
    }

    /// The orientation at position `i` of the table.
    pub fn state(&self, i: usize) -> (r: PieceState)
        requires
            i < self@.len(),
        ensures
            r == self@[i as int],
            r.fits(self.spec_height() as int),
    {
        proof {
            use_type_invariant(self);
        }
        self.states[i]
    }
}

} // verus!
