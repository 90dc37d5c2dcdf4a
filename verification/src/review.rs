//! The review of duplicates: which pair is shown, which image goes when the
//! user has chosen, and where a thumbnail lies in its frame.

use crate::duplicates::pairs_view;
use crate::entries::Name;
use vstd::prelude::*;

verus! {

/// Side length of the square in which an image is shown, in pixels.
pub const THUMB_SIZE: u32 = 384;

/// What the user chose for the pair that is shown.
#[derive(Clone, Copy, Debug, PartialEq, Eq, Structural)]
pub enum Message {
    /// Keep the left image, discard the right one.
    LeftPressed,
    /// Keep both images.
    CenterPressed,
    /// Keep the right image, discard the left one.
    RightPressed,
}

/// Where the top left corner of a thumbnail of the given size lies in a
/// square of `THUMB_SIZE`: a thumbnail that is higher than wide is centred
/// from left to right, one that is wider than high from top to bottom.
pub open spec fn centred(width: u32, height: u32) -> (int, int) {
    if width < height {
        (THUMB_SIZE / 2 - width / 2, 0)
    } else if width == height {
        (0, 0)
    } else {
        (0, THUMB_SIZE / 2 - height / 2)
    }
}

/// Where to put a thumbnail of the given size in its square.
pub fn embed_offset(width: u32, height: u32) -> (at: (u32, u32))
    requires
        width <= THUMB_SIZE,
        height <= THUMB_SIZE,
    ensures
        (at.0 as int, at.1 as int) == centred(width, height),
{
    if width < height {
        (THUMB_SIZE / 2 - width / 2, 0)
    } else if width == height {
        (0, 0)
    } else {
        (0, THUMB_SIZE / 2 - height / 2)
    }
}

/// A walk through the pairs of duplicates, one pair at a time.
#[derive(Debug)]
pub struct Review {
    idx: usize,
    duplicates: Vec<(String, String)>,
}

impl Review {
    #[verifier::type_invariant]
    spec fn inv(self) -> bool {
        self.idx <= self.duplicates@.len()
    }

    /// The pairs of the review.
    pub closed spec fn pairs(&self) -> Seq<(Name, Name)> {
        pairs_view(self.duplicates@)
    }

    /// How many pairs the review has left behind; at most all of them.
    pub closed spec fn position(&self) -> int {
        self.idx as int
    }

    /// A review of the given pairs, at the first of them.
    pub fn new(duplicates: Vec<(String, String)>) -> (review: Self)
        ensures
            review.pairs() == pairs_view(duplicates@),
            review.position() == 0,
    {
        Review { idx: 0, duplicates }
    }

    /// The pair to show, if the review is not at its end.
    pub fn current(&self) -> (pair: Option<(&String, &String)>)
        ensures
            0 <= self.position() <= self.pairs().len(),
            pair is Some <==> self.position() < self.pairs().len(),
            pair matches Some(shown) ==> (shown.0@, shown.1@) == self.pairs()[self.position()],
    {
        proof {
            use_type_invariant(self);
        }
        if self.idx < self.duplicates.len() {
            let pair = &self.duplicates[self.idx];
            assert(self.pairs()[self.position()] == (pair.0@, pair.1@));
            Some((&pair.0, &pair.1))
        } else {
            None
        }
    }

    /// The image to discard after the user's choice for the pair shown: the
    /// one that is not kept. `None` where both are kept or no pair is shown.
    pub fn discard(&self, message: Message) -> (path: Option<&String>)
        ensures
            path is Some <==> self.position() < self.pairs().len() && message
                != Message::CenterPressed,
            path matches Some(gone) ==> gone@ == if message == Message::LeftPressed {
                self.pairs()[self.position()].1
            } else {
                self.pairs()[self.position()].0
            },
    {
        match self.current() {
            None => None,
            Some((left, right)) => match message {
                Message::LeftPressed => Some(right),
                Message::CenterPressed => None,
                Message::RightPressed => Some(left),
            },
        }
    }

    /// Goes on to the next pair; stays at the end once it is reached.
    pub fn advance(&mut self)
        ensures
            final(self).pairs() == old(self).pairs(),
            final(self).position() == if old(self).position() < old(self).pairs().len() {
                old(self).position() + 1
            } else {
                old(self).position()
            },
    {
        proof {
            use_type_invariant(&*self);
        }
        if self.idx < self.duplicates.len() {
            self.idx = self.idx + 1;
        }
    }

    /// Settles on the current pair if both of its images still exist, and
    /// says so; goes on to the next pair if one of them is gone.
    pub fn settle(&mut self, first_exists: bool, second_exists: bool) -> (shown: bool)
        ensures
            shown == (first_exists && second_exists),
            final(self).pairs() == old(self).pairs(),
            final(self).position() == if shown || old(self).position() >= old(self).pairs().len() {
                old(self).position()
            } else {
                old(self).position() + 1
            },
    {
        if first_exists && second_exists {
            true
        } else {
            self.advance();
            false
        }
    }
}


} // verus!
