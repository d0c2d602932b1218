//! A tallier: a party of the sharing together with its view of the board.

use crate::error::{Error, ErrorKind};
use crate::evoting_schoenmakers::bulletin_board::BulletinBoard;
use crate::point::Point;
use crate::schoenmakers::party::{parameters_fit, party_fresh, party_valid, Party};
use rand_chacha::ChaCha20Rng;
use vstd::prelude::*;

verus! {

/// A party bound to the board that it has observed.
#[derive(Debug)]
pub struct Tallier {
    pub party: Party,
    pub bulletin_board: Option<BulletinBoard>,
}

impl Clone for Tallier {
    fn clone(&self) -> (r: Self)
        ensures
            r.party@ == self.party@,
            r.bulletin_board is Some <==> self.bulletin_board is Some,
            r.bulletin_board is Some ==> r.bulletin_board.unwrap()@ == self.bulletin_board.unwrap()@,
    {
        Tallier {
            party: self.party.clone(),
            bulletin_board: match &self.bulletin_board {
                Some(board) => Some(board.clone()),
                None => None,
            },
        }
    }
}

impl Tallier {
    /// A tallier at place `index` with a private key drawn from the
    /// generator and no board yet.  Parameters other than `n = 2t + 1` and
    /// `1 <= index <= n` are refused with `InvalidParameterSet`.
    pub fn new(g: &Point, h: &Point, rng: &mut ChaCha20Rng, n: usize, t: usize, index: usize) -> (r: Result<
        Tallier,
        Error,
    >)
        ensures
            match r {
                Ok(tallier) => {
                    &&& parameters_fit(n, t, index)
                    &&& party_valid(tallier.party@)
                    &&& tallier.party@.g == g@
                    &&& tallier.party@.h == h@
                    &&& tallier.party@.index == index
                    &&& tallier.party@.n == n
                    &&& tallier.party@.t == t
                    &&& party_fresh(tallier.party@)
                    &&& tallier.bulletin_board is None
                },
                Err(e) => !parameters_fit(n, t, index) && e.kind == ErrorKind::InvalidParameterSet(n, t, index),
            },
    {
        match Party::new(*g, *h, rng, n, t, index) {
            Ok(party) => Ok(Tallier { party, bulletin_board: None }),
            Err(e) => Err(e),
        }
    }

    /// One tallier for each place from 1 to `n`.
    pub fn generate_talliers(g: &Point, h: &Point, rng: &mut ChaCha20Rng, n: usize, t: usize) -> (r: Vec<
        Tallier,
    >)
        requires
            n == 2 * t + 1,
        ensures
            r@.len() == n,
            forall|i: int|
                0 <= i < n ==> {
                    let tallier = #[trigger] r@[i];
                    &&& tallier.party@.index == i + 1
                    &&& tallier.party@.n == n
                    &&& tallier.party@.t == t
                    &&& tallier.party@.g == g@
                    &&& tallier.party@.h == h@
                    &&& party_fresh(tallier.party@)
                    &&& party_valid(tallier.party@)
                    &&& tallier.bulletin_board is None
                },
    {
        let mut talliers: Vec<Tallier> = Vec::new();
        let mut i: usize = 0;
        while i < n
            invariant
                i <= n,
                n == 2 * t + 1,
                talliers@.len() == i,
                forall|k: int|
                    0 <= k < i ==> {
                        let tallier = #[trigger] talliers@[k];
                        &&& tallier.party@.index == k + 1
                        &&& tallier.party@.n == n
                        &&& tallier.party@.t == t
                        &&& tallier.party@.g == g@
                        &&& tallier.party@.h == h@
                        &&& party_fresh(tallier.party@)
                        &&& party_valid(tallier.party@)
                        &&& tallier.bulletin_board is None
                    },
            decreases n - i,
        {
            match Tallier::new(g, h, rng, n, t, i + 1) {
                Ok(tallier) => {
                    talliers.push(tallier);
                },
                Err(_) => {
                    proof {
                        // this arm is never taken
                        assert(false);
                    }
                },
            }
            i += 1;
        }
        talliers
    }
}

} // verus!
