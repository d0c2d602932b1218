//! The bulletin board: keeps the ballots, checks them in parallel, and adds
//! up what the accepted ones hold.

use crate::evoting_schoenmakers::voter::{vote_accepted, VoteProof};
use crate::vote_proof::VoteProofView;
use crate::field::{add_mod, sum_mod};
use crate::parallel::par_map;
use crate::point::{copy_points, exponents, Point};
use crate::scalar::{copy_scalars, values, Scalar};
use crate::schoenmakers::utils::{length_refusal, shares_accepted, verify_encrypted_shares_standalone};
use crate::transcript::Transcript;
use vstd::prelude::*;

verus! {

/// A ballot as the board keeps it, as numbers, with the verdicts of the two
/// checks.
pub struct RecordView {
    pub shares_ok: bool,
    pub vote_ok: bool,
    pub encrypted_shares: Seq<nat>,
    pub share_proof: (nat, Seq<nat>),
    pub encrypted_vote: nat,
    pub dealer_commitments: Seq<nat>,
    pub vote_proof: VoteProofView,
}

/// A board, as numbers.
pub struct BoardView {
    pub g: nat,
    pub h: nat,
    pub public_keys: Seq<nat>,
    pub n: nat,
    pub t: nat,
    pub ballots: Seq<RecordView>,
}

/// A ballot as the board keeps it.
#[derive(Debug)]
pub struct Record {
    shares_ok: bool,
    vote_ok: bool,
    encrypted_shares: Vec<Point>,
    share_proof: (Scalar, Vec<Scalar>),
    encrypted_vote: Point,
    dealer_commitments: Vec<Point>,
    vote_proof: VoteProof,
}

impl View for Record {
    type V = RecordView;

    closed spec fn view(&self) -> RecordView {
        RecordView {
            shares_ok: self.shares_ok,
            vote_ok: self.vote_ok,
            encrypted_shares: exponents(self.encrypted_shares@),
            share_proof: (self.share_proof.0@, values(self.share_proof.1@)),
            encrypted_vote: self.encrypted_vote@,
            dealer_commitments: exponents(self.dealer_commitments@),
            vote_proof: self.vote_proof@,
        }
    }
}

impl Record {
    /// The same ballot with the given verdicts.
    fn with_verdicts(&self, shares_ok: bool, vote_ok: bool) -> (r: Record)
        ensures
            r@ == (RecordView { shares_ok: shares_ok, vote_ok: vote_ok, ..self@ }),
    {
        Record {
            shares_ok,
            vote_ok,
            encrypted_shares: copy_points(&self.encrypted_shares),
            share_proof: (self.share_proof.0, copy_scalars(&self.share_proof.1)),
            encrypted_vote: self.encrypted_vote,
            dealer_commitments: copy_points(&self.dealer_commitments),
            vote_proof: self.vote_proof,
        }
    }
}

/// The views of a run of records.
pub open spec fn record_views(records: Seq<Record>) -> Seq<RecordView> {
    Seq::new(records.len(), |i: int| records[i]@)
}

/// The board: the public parameters and the ballots received so far.
#[derive(Debug)]
pub struct BulletinBoard {
    g: Point,
    h: Point,
    public_keys: Vec<Point>,
    n: usize,
    t: usize,
    ballots: Vec<Record>,
}

impl View for BulletinBoard {
    type V = BoardView;

    closed spec fn view(&self) -> BoardView {
        BoardView {
            g: self.g@,
            h: self.h@,
            public_keys: exponents(self.public_keys@),
            n: self.n as nat,
            t: self.t as nat,
            ballots: record_views(self.ballots@),
        }
    }
}

impl Clone for BulletinBoard {
    fn clone(&self) -> (r: Self)
        ensures
            r@ == self@,
    {
        let mut ballots: Vec<Record> = Vec::with_capacity(self.ballots.len());
        let mut i: usize = 0;
        while i < self.ballots.len()
            invariant
                i <= self.ballots.len(),
                ballots@.len() == i,
                forall|k: int| 0 <= k < i ==> (#[trigger] ballots@[k])@ == self.ballots@[k]@,
            decreases self.ballots.len() - i,
        {
            let record = &self.ballots[i];
            ballots.push(record.with_verdicts(record.shares_ok, record.vote_ok));
            i += 1;
        }
        let r = BulletinBoard {
            g: self.g,
            h: self.h,
            public_keys: copy_points(&self.public_keys),
            n: self.n,
            t: self.t,
            ballots,
        };
        proof {
            assert(r@.ballots =~= self@.ballots);
        }
        r
    }
}

/// Whether the board accepts the dealing of a ballot: the lengths fit the
/// parameters and the dealer's proof is accepted on a fresh transcript.
pub open spec fn shares_verdict(b: BoardView, r: RecordView) -> bool {
    &&& length_refusal(
        b.n as usize,
        b.t as usize,
        b.public_keys.len(),
        r.encrypted_shares.len(),
        r.share_proof.1.len(),
        r.dealer_commitments.len(),
    ) is None
    &&& shares_accepted(
        Seq::empty(),
        b.h,
        r.encrypted_shares,
        b.public_keys,
        r.dealer_commitments,
        r.share_proof.0,
        r.share_proof.1,
    )
}

/// Whether the board accepts the vote of a ballot: there is a first
/// commitment and the vote proof is accepted against it on a fresh
/// transcript.
pub open spec fn vote_verdict(b: BoardView, r: RecordView) -> bool {
    &&& r.dealer_commitments.len() > 0
    &&& vote_accepted(Seq::empty(), b.g, b.h, r.encrypted_vote, r.dealer_commitments[0], r.vote_proof)
}

/// The board after the check of encrypted shares: every ballot carries the
/// verdict on its dealing.
pub open spec fn shares_checked(b: BoardView) -> BoardView {
    BoardView {
        ballots: Seq::new(
            b.ballots.len(),
            |i: int| RecordView { shares_ok: shares_verdict(b, b.ballots[i]), ..b.ballots[i] },
        ),
        ..b
    }
}

/// The board after the check of votes: every ballot carries the verdict on
/// its vote.
pub open spec fn votes_checked(b: BoardView) -> BoardView {
    BoardView {
        ballots: Seq::new(
            b.ballots.len(),
            |i: int| RecordView { vote_ok: vote_verdict(b, b.ballots[i]), ..b.ballots[i] },
        ),
        ..b
    }
}

/// The sum of the encrypted votes of the first `k` ballots whose vote was
/// accepted.
pub open spec fn tally_of(ballots: Seq<RecordView>, k: nat) -> nat
    decreases k,
{
    if k == 0 {
        0
    } else {
        let rest = tally_of(ballots, (k - 1) as nat);
        if ballots[k - 1].vote_ok {
            add_mod(rest, ballots[k - 1].encrypted_vote)
        } else {
            rest
        }
    }
}

/// The number of ballots among the first `k` whose vote was accepted.
pub open spec fn valid_votes(ballots: Seq<RecordView>, k: nat) -> nat
    decreases k,
{
    if k == 0 {
        0
    } else {
        valid_votes(ballots, (k - 1) as nat) + if ballots[k - 1].vote_ok {
            1nat
        } else {
            0nat
        }
    }
}

/// The sum of the encrypted shares for party `column` over the first `k`
/// ballots whose dealing was accepted; a ballot that holds no share for the
/// party adds nothing.
pub open spec fn column_sum(ballots: Seq<RecordView>, column: int, k: nat) -> nat
    decreases k,
{
    if k == 0 {
        0
    } else {
        let rest = column_sum(ballots, column, (k - 1) as nat);
        let r = ballots[k - 1];
        if r.shares_ok && column < r.encrypted_shares.len() {
            add_mod(rest, r.encrypted_shares[column])
        } else {
            rest
        }
    }
}

impl BulletinBoard {
    /// A board without ballots, with room for `m`.
    pub fn new(g: &Point, h: &Point, public_keys: &Vec<Point>, m: usize, n: usize, t: usize) -> (r: BulletinBoard)
        ensures
            r@ == (BoardView {
                g: g@,
                h: h@,
                public_keys: exponents(public_keys@),
                n: n as nat,
                t: t as nat,
                ballots: Seq::empty(),
            }),
    {
        let r = BulletinBoard {
            g: *g,
            h: *h,
            public_keys: copy_points(public_keys),
            n,
            t,
            ballots: Vec::with_capacity(m),
        };
        proof {
            assert(r@.ballots =~= Seq::empty());
        }
        r
    }

    /// Appends a ballot.  Nothing is checked; both verdicts start as false.
    pub fn ingest_vote(
        &mut self,
        encrypted_shares: Vec<Point>,
        encrypted_share_proof: (Scalar, Vec<Scalar>),
        encrypted_vote: Point,
        dealer_commitments: Vec<Point>,
        vote_proof: VoteProof,
    )
        ensures
            final(self)@ == (BoardView {
                ballots: old(self)@.ballots.push(
                    RecordView {
                        shares_ok: false,
                        vote_ok: false,
                        encrypted_shares: exponents(encrypted_shares@),
                        share_proof: (encrypted_share_proof.0@, values(encrypted_share_proof.1@)),
                        encrypted_vote: encrypted_vote@,
                        dealer_commitments: exponents(dealer_commitments@),
                        vote_proof: vote_proof@,
                    },
                ),
                ..old(self)@
            }),
    {
        let record = Record {
            shares_ok: false,
            vote_ok: false,
            encrypted_shares,
            share_proof: encrypted_share_proof,
            encrypted_vote,
            dealer_commitments,
            vote_proof,
        };
        self.ballots.push(record);
        proof {
            assert(self@.ballots =~= old(self)@.ballots.push(record@));
        }
    }

    /// The number of ballots on the board.
    pub fn len(&self) -> (r: usize)
        ensures
            r == self@.ballots.len(),
    {
        self.ballots.len()
    }

    /// The generator `G`.
    pub fn g(&self) -> (r: Point)
        ensures
            r@ == self@.g,
    {
        self.g
    }

    /// The parties' public keys.
    pub fn public_keys(&self) -> (r: &Vec<Point>)
        ensures
            exponents(r@) == self@.public_keys,
    {
        &self.public_keys
    }

    /// The encrypted shares of the ballot at `i`, if there is such a ballot.
    pub fn encrypted_shares(&self, i: usize) -> (r: Option<&Vec<Point>>)
        ensures
            r is Some <==> i < self@.ballots.len(),
            r is Some ==> exponents(r.unwrap()@) == self@.ballots[i as int].encrypted_shares,
    {
        if i < self.ballots.len() {
            Some(&self.ballots[i].encrypted_shares)
        } else {
            None
        }
    }

    /// The encrypted vote of the ballot at `i`, if there is such a ballot.
    pub fn encrypted_vote(&self, i: usize) -> (r: Option<Point>)
        ensures
            r is Some <==> i < self@.ballots.len(),
            r is Some ==> r.unwrap()@ == self@.ballots[i as int].encrypted_vote,
    {
        if i < self.ballots.len() {
            Some(self.ballots[i].encrypted_vote)
        } else {
            None
        }
    }

    /// The vote proof of the ballot at `i`, if there is such a ballot.
    pub fn vote_proof(&self, i: usize) -> (r: Option<VoteProof>)
        ensures
            r is Some <==> i < self@.ballots.len(),
            r is Some ==> r.unwrap()@ == self@.ballots[i as int].vote_proof,
    {
        if i < self.ballots.len() {
            Some(self.ballots[i].vote_proof)
        } else {
            None
        }
    }

    /// The generator `H`.
    pub fn h(&self) -> (r: Point)
        ensures
            r@ == self@.h,
    {
        self.h
    }

    /// The number of parties.
    pub fn n(&self) -> (r: usize)
        ensures
            r == self@.n,
    {
        self.n
    }

    /// The threshold.
    pub fn t(&self) -> (r: usize)
        ensures
            r == self@.t,
    {
        self.t
    }

    /// The dealer's proof `(d, z)` of the ballot at `i`, if there is such a
    /// ballot.
    pub fn encrypted_share_proof(&self, i: usize) -> (r: Option<&(Scalar, Vec<Scalar>)>)
        ensures
            r is Some <==> i < self@.ballots.len(),
            r is Some ==> (r.unwrap().0@, values(r.unwrap().1@)) == self@.ballots[i as int].share_proof,
    {
        if i < self.ballots.len() {
            Some(&self.ballots[i].share_proof)
        } else {
            None
        }
    }

    /// The commitments of the ballot at `i`, if there is such a ballot.
    pub fn dealer_commitments(&self, i: usize) -> (r: Option<&Vec<Point>>)
        ensures
            r is Some <==> i < self@.ballots.len(),
            r is Some ==> exponents(r.unwrap()@) == self@.ballots[i as int].dealer_commitments,
    {
        if i < self.ballots.len() {
            Some(&self.ballots[i].dealer_commitments)
        } else {
            None
        }
    }

    /// The verdict on the dealing of the ballot at `i`, if there is such a
    /// ballot.
    pub fn shares_ok(&self, i: usize) -> (r: Option<bool>)
        ensures
            r is Some <==> i < self@.ballots.len(),
            r is Some ==> r.unwrap() == self@.ballots[i as int].shares_ok,
    {
        if i < self.ballots.len() {
            Some(self.ballots[i].shares_ok)
        } else {
            None
        }
    }

    /// The verdict on the vote of the ballot at `i`, if there is such a
    /// ballot.
    pub fn vote_ok(&self, i: usize) -> (r: Option<bool>)
        ensures
            r is Some <==> i < self@.ballots.len(),
            r is Some ==> r.unwrap() == self@.ballots[i as int].vote_ok,
    {
        if i < self.ballots.len() {
            Some(self.ballots[i].vote_ok)
        } else {
            None
        }
    }

    /// The verdict on the dealing of the ballot at `i`.
    fn check_shares(&self, i: usize) -> (r: bool)
        requires
            i < self@.ballots.len(),
        ensures
            r == shares_verdict(self@, self@.ballots[i as int]),
    {
        let record = &self.ballots[i];
        let mut transcript = Transcript::new();
        let out = verify_encrypted_shares_standalone(
            &self.h,
            &mut transcript,
            &record.encrypted_shares,
            &self.public_keys,
            &record.dealer_commitments,
            (&record.share_proof.0, &record.share_proof.1),
            self.n,
            self.t,
        );
        match out {
            Ok(accepted) => accepted,
            Err(_) => false,
        }
    }

    /// The verdict on the vote of the ballot at `i`.
    fn check_vote(&self, i: usize) -> (r: bool)
        requires
            i < self@.ballots.len(),
        ensures
            r == vote_verdict(self@, self@.ballots[i as int]),
    {
        let record = &self.ballots[i];
        if record.dealer_commitments.len() == 0 {
            return false;
        }
        let mut transcript = Transcript::new();
        record.vote_proof.verify(
            &mut transcript,
            &self.g,
            &self.h,
            &record.encrypted_vote,
            &record.dealer_commitments[0],
        )
    }

    /// Writes the given verdicts on the dealings into the ballots.
    fn set_share_verdicts(&mut self, verdicts: &Vec<bool>)
        requires
            verdicts@.len() == old(self)@.ballots.len(),
        ensures
            final(self)@ == (BoardView {
                ballots: Seq::new(
                    old(self)@.ballots.len(),
                    |i: int| RecordView { shares_ok: verdicts@[i], ..old(self)@.ballots[i] },
                ),
                ..old(self)@
            }),
    {
        let m = self.ballots.len();
        let mut i: usize = 0;
        while i < m
            invariant
                i <= m,
                m == old(self)@.ballots.len(),
                verdicts@.len() == m,
                self@.ballots.len() == m,
                self.ballots@.len() == m,
                self@ == (BoardView { ballots: self@.ballots, ..old(self)@ }),
                forall|k: int|
                    0 <= k < i ==> #[trigger] self@.ballots[k] == (RecordView {
                        shares_ok: verdicts@[k],
                        ..old(self)@.ballots[k]
                    }),
                forall|k: int| i <= k < m ==> #[trigger] self@.ballots[k] == old(self)@.ballots[k],
            decreases m - i,
        {
            let ghost before = self@.ballots;
            let updated = self.ballots[i].with_verdicts(verdicts[i], self.ballots[i].vote_ok);
            proof {
                assert(before[i as int] == self.ballots@[i as int]@);
                assert(before[i as int] == old(self)@.ballots[i as int]);
                assert(updated@ == (RecordView { shares_ok: verdicts@[i as int], ..old(self)@.ballots[i as int] }));
            }
            self.ballots.set(i, updated);
            proof {
                assert(self@.ballots =~= before.update(i as int, updated@));
            }
            i += 1;
        }
        proof {
            assert(self@.ballots =~= Seq::new(
                old(self)@.ballots.len(),
                |i: int| RecordView { shares_ok: verdicts@[i], ..old(self)@.ballots[i] },
            ));
        }
    }

    /// Writes the given verdicts on the votes into the ballots.
    fn set_vote_verdicts(&mut self, verdicts: &Vec<bool>)
        requires
            verdicts@.len() == old(self)@.ballots.len(),
        ensures
            final(self)@ == (BoardView {
                ballots: Seq::new(
                    old(self)@.ballots.len(),
                    |i: int| RecordView { vote_ok: verdicts@[i], ..old(self)@.ballots[i] },
                ),
                ..old(self)@
            }),
    {
        let m = self.ballots.len();
        let mut i: usize = 0;
        while i < m
            invariant
                i <= m,
                m == old(self)@.ballots.len(),
                verdicts@.len() == m,
                self@.ballots.len() == m,
                self.ballots@.len() == m,
                self@ == (BoardView { ballots: self@.ballots, ..old(self)@ }),
                forall|k: int|
                    0 <= k < i ==> #[trigger] self@.ballots[k] == (RecordView {
                        vote_ok: verdicts@[k],
                        ..old(self)@.ballots[k]
                    }),
                forall|k: int| i <= k < m ==> #[trigger] self@.ballots[k] == old(self)@.ballots[k],
            decreases m - i,
        {
            let ghost before = self@.ballots;
            let updated = self.ballots[i].with_verdicts(self.ballots[i].shares_ok, verdicts[i]);
            proof {
                assert(before[i as int] == self.ballots@[i as int]@);
                assert(before[i as int] == old(self)@.ballots[i as int]);
                assert(updated@ == (RecordView { vote_ok: verdicts@[i as int], ..old(self)@.ballots[i as int] }));
            }
            self.ballots.set(i, updated);
            proof {
                assert(self@.ballots =~= before.update(i as int, updated@));
            }
            i += 1;
        }
        proof {
            assert(self@.ballots =~= Seq::new(
                old(self)@.ballots.len(),
                |i: int| RecordView { vote_ok: verdicts@[i], ..old(self)@.ballots[i] },
            ));
        }
    }

    /// Checks the vote proof of every ballot, in parallel and each on a
    /// transcript of its own, against the ballot's first commitment, and
    /// sets the ballot's verdict to the outcome.  The verdict depends on
    /// the ballot and the board's parameters alone.
    pub fn verify_votes(&mut self)
        ensures
            final(self)@ == votes_checked(old(self)@),
    {
        let m = self.ballots.len();
        let this: &BulletinBoard = &*self;
        let task = |i: usize| -> (r: bool)
            requires
                i < m,
            ensures
                r == vote_verdict(this@, this@.ballots[i as int]),
            { this.check_vote(i) };
        let verdicts = par_map(m, task);
        proof {
            assert forall|k: int| 0 <= k < m implies #[trigger] verdicts@[k] == vote_verdict(
                old(self)@,
                old(self)@.ballots[k],
            ) by {
                let at = k as usize;
                assert(call_ensures(task, (at,), verdicts@[at as int]));
            }
        }
        self.set_vote_verdicts(&verdicts);
        proof {
            assert(self@.ballots =~= votes_checked(old(self)@).ballots);
        }
    }

    /// Checks the dealer's proof of every ballot, in parallel and each on a
    /// transcript of its own, and sets the ballot's verdict to the outcome.
    /// The verdict depends on the ballot and the board's parameters alone,
    /// so a second run changes nothing.
    pub fn verify_encrypted_shares(&mut self)
        ensures
            final(self)@ == shares_checked(old(self)@),
    {
        let m = self.ballots.len();
        let this: &BulletinBoard = &*self;
        let task = |i: usize| -> (r: bool)
            requires
                i < m,
            ensures
                r == shares_verdict(this@, this@.ballots[i as int]),
            { this.check_shares(i) };
        let verdicts = par_map(m, task);
        proof {
            assert forall|k: int| 0 <= k < m implies #[trigger] verdicts@[k] == shares_verdict(
                old(self)@,
                old(self)@.ballots[k],
            ) by {
                let at = k as usize;
                assert(call_ensures(task, (at,), verdicts@[at as int]));
            }
        }
        self.set_share_verdicts(&verdicts);
        proof {
            assert(self@.ballots =~= shares_checked(old(self)@).ballots);
        }
    }

    /// The sum of the encrypted votes of the ballots whose vote was
    /// accepted.
    pub fn tally_encrypted_votes(&self) -> (r: Point)
        ensures
            r@ == tally_of(self@.ballots, self@.ballots.len()),
    {
        let mut acc = Point::identity();
        let mut i: usize = 0;
        while i < self.ballots.len()
            invariant
                i <= self.ballots.len(),
                acc@ == tally_of(self@.ballots, i as nat),
            decreases self.ballots.len() - i,
        {
            if self.ballots[i].vote_ok {
                acc = acc.add(&self.ballots[i].encrypted_vote);
            }
            i += 1;
        }
        acc
    }

    /// The sums, party by party, of the encrypted shares of the ballots
    /// whose dealing was accepted: `n` points.
    pub fn sum_encrypted_shares(&self) -> (r: Vec<Point>)
        ensures
            r@.len() == self@.n,
            forall|k: int|
                0 <= k < r@.len() ==> (#[trigger] r@[k])@ == column_sum(self@.ballots, k, self@.ballots.len()),
    {
        let mut output: Vec<Point> = Vec::new();
        let mut k: usize = 0;
        while k < self.n
            invariant
                k <= self.n,
                output@.len() == k,
                forall|j: int|
                    0 <= j < k ==> (#[trigger] output@[j])@ == column_sum(
                        self@.ballots,
                        j,
                        self@.ballots.len(),
                    ),
            decreases self.n - k,
        {
            let mut acc = Point::identity();
            let mut i: usize = 0;
            while i < self.ballots.len()
                invariant
                    i <= self.ballots.len(),
                    acc@ == column_sum(self@.ballots, k as int, i as nat),
                decreases self.ballots.len() - i,
            {
                let record = &self.ballots[i];
                if record.shares_ok && k < record.encrypted_shares.len() {
                    acc = acc.add(&record.encrypted_shares[k]);
                }
                i += 1;
            }
            output.push(acc);
            k += 1;
        }
        output
    }

    /// The number of ballots whose vote was accepted: the bound of the
    /// search that decodes the tally.
    pub fn count_valid_votes(&self) -> (r: usize)
        ensures
            r == valid_votes(self@.ballots, self@.ballots.len()),
    {
        let mut count: usize = 0;
        let mut i: usize = 0;
        while i < self.ballots.len()
            invariant
                i <= self.ballots.len(),
                count <= i,
                count == valid_votes(self@.ballots, i as nat),
            decreases self.ballots.len() - i,
        {
            if self.ballots[i].vote_ok {
                count += 1;
            }
            i += 1;
        }
        count
    }
}

/// Running the check of encrypted shares twice gives the same board as
/// running it once: the verdicts do not depend on earlier verdicts.
pub proof fn lemma_shares_check_idempotent(b: BoardView)
    ensures
        shares_checked(shares_checked(b)) == shares_checked(b),
{
    let once = shares_checked(b);
    let twice = shares_checked(once);
    assert(twice.ballots =~= once.ballots);
}

/// Running the check of votes twice gives the same board as running it
/// once.
pub proof fn lemma_votes_check_idempotent(b: BoardView)
    ensures
        votes_checked(votes_checked(b)) == votes_checked(b),
{
    let once = votes_checked(b);
    let twice = votes_checked(once);
    assert(twice.ballots =~= once.ballots);
}

/// The encrypted shares that the first `m` ballots hold in one slot.
pub open spec fn shares_in_slot(ballots: Seq<RecordView>, column: int, m: nat) -> Seq<nat> {
    Seq::new(m, |b: int| ballots[b].encrypted_shares[column])
}

/// The encrypted votes of the first `m` ballots.
pub open spec fn votes_on_board(ballots: Seq<RecordView>, m: nat) -> Seq<nat> {
    Seq::new(m, |b: int| ballots[b].encrypted_vote)
}

/// A sum in the field depends on the entries that it adds only.
proof fn lemma_sum_of_prefix(a: Seq<nat>, b: Seq<nat>, k: nat)
    requires
        k <= a.len(),
        k <= b.len(),
        forall|i: int| 0 <= i < k ==> a[i] == b[i],
    ensures
        sum_mod(a, k) == sum_mod(b, k),
    decreases k,
{
    if k > 0 {
        lemma_sum_of_prefix(a, b, (k - 1) as nat);
    }
}

/// Where every dealing is accepted and holds a share in the slot, the
/// column's sum is the plain sum of the ballots' shares in that slot.
pub proof fn lemma_column_sum_of_accepted(ballots: Seq<RecordView>, column: int, m: nat)
    requires
        m <= ballots.len(),
        0 <= column,
        forall|b: int| 0 <= b < m ==> (#[trigger] ballots[b]).shares_ok && column < ballots[b].encrypted_shares.len(),
    ensures
        column_sum(ballots, column, m) == sum_mod(shares_in_slot(ballots, column, m), m),
    decreases m,
{
    if m > 0 {
        let j = (m - 1) as nat;
        lemma_column_sum_of_accepted(ballots, column, j);
        lemma_sum_of_prefix(shares_in_slot(ballots, column, m), shares_in_slot(ballots, column, j), j);
        assert(ballots[j as int].shares_ok);
    }
}

/// Where every vote is accepted, the tally is the plain sum of the
/// encrypted votes, and every ballot counts.
pub proof fn lemma_tally_of_accepted(ballots: Seq<RecordView>, m: nat)
    requires
        m <= ballots.len(),
        forall|b: int| 0 <= b < m ==> (#[trigger] ballots[b]).vote_ok,
    ensures
        tally_of(ballots, m) == sum_mod(votes_on_board(ballots, m), m),
        valid_votes(ballots, m) == m,
    decreases m,
{
    if m > 0 {
        let j = (m - 1) as nat;
        lemma_tally_of_accepted(ballots, j);
        lemma_sum_of_prefix(votes_on_board(ballots, m), votes_on_board(ballots, j), j);
        assert(ballots[j as int].vote_ok);
    }
}

} // verus!
