//! The puzzle state machine: grid size, tile arrangement and selection,
//! driven by the messages the view forwards.

use vstd::prelude::*;

use rand::seq::SliceRandom;

use crate::perm::{
    apply_swap, identity_seq, identity_vec, is_perm, lemma_identity_is_perm,
    lemma_same_multiset_preserves_perm, lemma_swap_preserves_perm,
};
use crate::solver::{is_decomposition, solve};

verus! {

/// A user action forwarded by the view.
#[derive(Clone, Copy)]
pub enum Message {
    Shuffle,
    Solve,
    Click(u32),
    Swap(u32, u32),
    Reset,
    Resize(u32),
}

/// The number of slots of a `size`-by-`size` grid.
pub open spec fn grid_len(size: u32) -> nat {
    ((size as int) * (size as int)) as nat
}

/// The puzzle's owner: the current arrangement (slot to tile), the grid
/// size, and the slot selected as the first half of a pending swap.
pub struct PuzzleController {
    pub pieces: Vec<u32>,
    pub size: u32,
    pub current: Option<u32>,
}

/// Relies on rand::seq::SliceRandom::shuffle, fed by rand::rng: it permutes
/// the slice in place, so afterwards it holds the same elements as before,
/// counted with multiplicity.
#[verifier::external_body]
fn shuffle_tiles(v: &mut Vec<u32>)
    ensures
        final(v)@.to_multiset() == old(v)@.to_multiset(),
{
    v.shuffle(&mut rand::rng())
}

impl PuzzleController {
    /// The puzzle's invariant: a grid size whose square fits the slot
    /// indices, an arrangement that permutes the grid's slots, and a
    /// selection that names one of them, if any.
    pub open spec fn wf(self) -> bool {
        &&& 1 <= self.size <= 65535
        &&& self.pieces@.len() == grid_len(self.size)
        &&& is_perm(self.pieces@)
        &&& match self.current {
            Some(c) => (c as int) < self.pieces@.len(),
            None => true,
        }
    }

    /// A fresh puzzle: the default 20-by-20 grid, solved, nothing selected.
    pub fn new() -> (c: PuzzleController)
        ensures
            c.wf(),
            c.size == 20,
            c.pieces@ == identity_seq(400),
            c.current is None,
    {
        let pieces: Vec<u32> = identity_vec(400);
        proof {
            lemma_identity_is_perm(400);
        }
        PuzzleController { pieces, size: 20, current: None }
    }

    /// Reinitialize the arrangement to the solved order of the current grid
    /// size and clear the selection.
    fn reinit(&mut self)
        requires
            1 <= old(self).size <= 65535,
        ensures
            final(self).wf(),
            final(self).size == old(self).size,
            final(self).pieces@ == identity_seq(grid_len(old(self).size)),
            final(self).current is None,
    {
        let s: u32 = self.size;
        proof {
            vstd::arithmetic::mul::lemma_mul_upper_bound(s as int, 65535, s as int, 65535);
        }
        let n: u32 = s * s;
        self.pieces = identity_vec(n);
        self.current = None;
        proof {
            lemma_identity_is_perm(n as nat);
        }
    }
}

/// Whether the state admits the message: named slots lie on the grid, and a
/// requested grid size is positive and small enough that its square fits
/// the slot indices.
pub open spec fn msg_valid(s: PuzzleController, m: Message) -> bool {
    match m {
        Message::Swap(a, b) => (a as int) < s.pieces@.len() && (b as int) < s.pieces@.len(),
        Message::Click(q) => (q as int) < s.pieces@.len(),
        Message::Resize(k) => 1 <= k <= 65535,
        _ => true,
    }
}

/// The transition relation of the puzzle: how one message transforms the
/// state, and what solve plan it hands back.
pub open spec fn step_ok(
    pre: PuzzleController,
    m: Message,
    post: PuzzleController,
    plan: Option<Seq<Seq<u32>>>,
) -> bool {
    match m {
        Message::Swap(a, b) => {
            &&& post.pieces@ == apply_swap(pre.pieces@, a, b)
            &&& post.size == pre.size
            &&& post.current == pre.current
            &&& plan is None
        },
        Message::Shuffle => {
            &&& post.pieces@.to_multiset() == pre.pieces@.to_multiset()
            &&& post.pieces@.len() == pre.pieces@.len()
            &&& post.size == pre.size
            &&& post.current == pre.current
            &&& plan is None
        },
        Message::Click(q) => match pre.current {
            None => {
                &&& post.pieces@ == pre.pieces@
                &&& post.size == pre.size
                &&& post.current == Some(q)
                &&& plan is None
            },
            Some(c) => {
                &&& post.pieces@ == apply_swap(pre.pieces@, c, q)
                &&& post.size == pre.size
                &&& post.current is None
                &&& plan is None
            },
        },
        Message::Reset => {
            &&& post.pieces@ == identity_seq(grid_len(pre.size))
            &&& post.size == pre.size
            &&& post.current is None
            &&& plan is None
        },
        Message::Resize(k) => {
            &&& post.pieces@ == identity_seq(grid_len(k))
            &&& post.size == k
            &&& post.current is None
            &&& plan is None
        },
        Message::Solve => {
            &&& post.pieces@ == pre.pieces@
            &&& post.size == pre.size
            &&& post.current == pre.current
            &&& plan matches Some(cs) && is_decomposition(pre.pieces@, cs)
        },
    }
}

impl PuzzleController {
    /// Apply one message to the puzzle. A solve message leaves the state
    /// untouched and hands back the cycles whose replay — one swap message
    /// per adjacent pair of listed slots — solves the current arrangement;
    /// every other message returns no plan.
    pub fn apply(&mut self, m: Message) -> (plan: Option<Vec<Vec<u32>>>)
        requires
            old(self).wf(),
            msg_valid(*old(self), m),
        ensures
            final(self).wf(),
            step_ok(*old(self), m, *final(self), plan.deep_view()),
    {
        match m {
            Message::Swap(a, b) => {
                let va: u32 = self.pieces[a as usize];
                let vb: u32 = self.pieces[b as usize];
                self.pieces.set(a as usize, vb);
                self.pieces.set(b as usize, va);
                proof {
                    assert(self.pieces@ =~= apply_swap(old(self).pieces@, a, b));
                    lemma_swap_preserves_perm(old(self).pieces@, a, b);
                }
                None
            },
            Message::Shuffle => {
                shuffle_tiles(&mut self.pieces);
                proof {
                    lemma_same_multiset_preserves_perm(old(self).pieces@, self.pieces@);
                }
                None
            },
            Message::Click(q) => {
                match self.current {
                    None => {
                        self.current = Some(q);
                        None
                    },
                    Some(c) => {
                        let vc: u32 = self.pieces[c as usize];
                        let vq: u32 = self.pieces[q as usize];
                        self.pieces.set(c as usize, vq);
                        self.pieces.set(q as usize, vc);
                        self.current = None;
                        proof {
                            assert(self.pieces@ =~= apply_swap(old(self).pieces@, c, q));
                            lemma_swap_preserves_perm(old(self).pieces@, c, q);
                        }
                        None
                    },
                }
            },
            Message::Reset => {
                self.reinit();
                None
            },
            Message::Resize(k) => {
                self.size = k;
                self.reinit();
                None
            },
            Message::Solve => {
                let cs: Vec<Vec<u32>> = solve(&self.pieces);
                Some(cs)
            },
        }
    }
}

/// Every message preserves the puzzle's invariant: however the grid is
/// swapped, shuffled, reset or resized, the arrangement remains a
/// permutation of the grid's slots.
pub proof fn lemma_step_preserves_invariant(
    pre: PuzzleController,
    m: Message,
    post: PuzzleController,
    plan: Option<Seq<Seq<u32>>>,
)
    requires
        pre.wf(),
        msg_valid(pre, m),
        step_ok(pre, m, post, plan),
    ensures
        post.wf(),
{
    match m {
        Message::Swap(a, b) => {
            lemma_swap_preserves_perm(pre.pieces@, a, b);
        },
        Message::Shuffle => {
            lemma_same_multiset_preserves_perm(pre.pieces@, post.pieces@);
        },
        Message::Click(q) => {
            match pre.current {
                Some(c) => lemma_swap_preserves_perm(pre.pieces@, c, q),
                None => (),
            }
        },
        Message::Reset => {
            vstd::arithmetic::mul::lemma_mul_upper_bound(
                pre.size as int,
                65535,
                pre.size as int,
                65535,
            );
            lemma_identity_is_perm(grid_len(pre.size));
        },
        Message::Resize(k) => {
            vstd::arithmetic::mul::lemma_mul_upper_bound(k as int, 65535, k as int, 65535);
            lemma_identity_is_perm(grid_len(k));
        },
        Message::Solve => (),
    }
}

/// Clicking two different slots swaps their tiles exactly as a direct swap
/// message would, and leaves no selection behind.
pub proof fn lemma_click_click_is_swap(
    s0: PuzzleController,
    a: u32,
    b: u32,
    s1: PuzzleController,
    s2: PuzzleController,
    t: PuzzleController,
)
    requires
        s0.current is None,
        a != b,
        step_ok(s0, Message::Click(a), s1, None),
        step_ok(s1, Message::Click(b), s2, None),
        step_ok(s0, Message::Swap(a, b), t, None),
    ensures
        s2.pieces@ == t.pieces@,
        s2.size == t.size,
        s2.current is None,
{
}

} // verus!
