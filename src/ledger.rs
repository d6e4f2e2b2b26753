//! The ledger of all cards, and the cascade in which each winning card
//! grants copies of the cards that follow it.
use vstd::prelude::*;
use crate::card::ScratchCardGame;
use crate::parse::{line_error, parse_line, read_from, ParseError};

verus! {

/// Card `p` (counted from 0) with `ms[p]` matches hands each of the next
/// `ms[p]` cards, as far as they exist, as many copies as it has itself.
pub open spec fn propagate(ms: Seq<nat>, counts: Seq<nat>, p: int) -> Seq<nat> {
    Seq::new(counts.len(), |q: int| if p < q <= p + ms[p] { counts[q] + counts[p] } else { counts[q] })
}

/// The instance counts once the first `p` cards have handed out their
/// copies, in order, starting from one instance of each card.
pub open spec fn cascade_through(ms: Seq<nat>, p: nat) -> Seq<nat>
    decreases p,
{
    if p == 0 {
        Seq::new(ms.len(), |q: int| 1nat)
    } else {
        propagate(ms, cascade_through(ms, (p - 1) as nat), p - 1)
    }
}

/// The instance counts once every card has handed out its copies.
pub open spec fn cascaded(ms: Seq<nat>) -> Seq<nat> {
    cascade_through(ms, ms.len())
}

pub open spec fn sum(s: Seq<nat>) -> nat
    decreases s.len(),
{
    if s.len() == 0 {
        0
    } else {
        sum(s.drop_last()) + s.last()
    }
}

pub open spec fn as_nats(v: Seq<usize>) -> Seq<nat> {
    v.map_values(|x: usize| x as nat)
}

/// The match count of each card, in order.
pub open spec fn card_match_counts(cards: Seq<ScratchCardGame>) -> Seq<nat> {
    cards.map_values(|c: ScratchCardGame| c.spec_match_count())
}

/// The instance count of each card, in order.
pub open spec fn card_instance_counts(cards: Seq<ScratchCardGame>) -> Seq<nat> {
    cards.map_values(|c: ScratchCardGame| c.instance_count())
}

proof fn lemma_cascade_len(ms: Seq<nat>, p: nat)
    ensures
        cascade_through(ms, p).len() == ms.len(),
    decreases p,
{
    if p > 0 {
        lemma_cascade_len(ms, (p - 1) as nat);
    }
}

/// Counts only grow as the cascade goes on.
proof fn lemma_cascade_grows(ms: Seq<nat>, a: nat, b: nat, q: int)
    requires
        a <= b,
        0 <= q < ms.len(),
    ensures
        cascade_through(ms, a)[q] <= cascade_through(ms, b)[q],
    decreases b - a,
{
    if a < b {
        lemma_cascade_len(ms, (b - 1) as nat);
        lemma_cascade_grows(ms, a, (b - 1) as nat, q);
    }
}

/// The instance counts that the cascade gives for cards with the given
/// match counts, or `None` when one of them does not fit in a `usize`.
pub fn cascade_counts(match_counts: &Vec<usize>) -> (r: Option<Vec<usize>>)
    ensures
        match r {
            Some(v) => as_nats(v@) == cascaded(as_nats(match_counts@)),
            None => exists|q: int| 0 <= q < match_counts.len()
                && cascaded(as_nats(match_counts@))[q] > usize::MAX,
        },
{
    let ghost ms = as_nats(match_counts@);
    let n = match_counts.len();
    let mut counts: Vec<usize> = Vec::new();
    while counts.len() < n
        invariant
            counts.len() <= n,
            forall|q: int| 0 <= q < counts.len() ==> counts@[q] == 1,
        decreases n - counts.len(),
    {
        counts.push(1);
    }
    assert(as_nats(counts@) == cascade_through(ms, 0));
    let mut p: usize = 0;
    while p < n
        invariant
            n == match_counts.len(),
            ms == as_nats(match_counts@),
            p <= n,
            counts.len() == n,
            as_nats(counts@) == cascade_through(ms, p as nat),
        decreases n - p,
    {
        let ghost before = as_nats(counts@);
        proof {
            lemma_cascade_len(ms, p as nat);
        }
        let k = counts[p];
        let m = match_counts[p];
        let end = if m < n - p - 1 { p + 1 + m } else { n };
        let mut q: usize = p + 1;
        while q < end
            invariant
                n == match_counts.len(),
                ms == as_nats(match_counts@),
                p < n,
                p + 1 <= end <= n,
                end == if m < n - p - 1 { p + 1 + m } else { n as int },
                m == match_counts@[p as int],
                k == before[p as int],
                before == cascade_through(ms, p as nat),
                before.len() == n,
                p + 1 <= q <= end,
                counts.len() == n,
                forall|x: int| 0 <= x < n ==> #[trigger] counts@[x] == (
                    if p < x < q { before[x] + before[p as int] } else { before[x] }),
            decreases end - q,
        {
            match counts[q].checked_add(k) {
                Some(c) => {
                    counts.set(q, c);
                },
                None => {
                    proof {
                        lemma_cascade_len(ms, p as nat);
                        assert(cascade_through(ms, (p + 1) as nat)[q as int] > usize::MAX);
                        lemma_cascade_grows(ms, (p + 1) as nat, n as nat, q as int);
                        assert(cascaded(as_nats(match_counts@))[q as int] > usize::MAX);
                    }
                    return None;
                },
            }
            q = q + 1;
        }
        proof {
            lemma_cascade_len(ms, p as nat);
            assert(as_nats(counts@) =~= cascade_through(ms, (p + 1) as nat));
        }
        p = p + 1;
    }
    Some(counts)
}

proof fn lemma_sum_grows(s: Seq<nat>, i: int, j: int)
    requires
        0 <= i <= j <= s.len(),
    ensures
        sum(s.take(i)) <= sum(s.take(j)),
    decreases j - i,
{
    if i < j {
        lemma_sum_grows(s, i, j - 1);
        assert(s.take(j).drop_last() == s.take(j - 1));
    }
}

proof fn lemma_sum_of_positives(s: Seq<nat>)
    requires
        forall|q: int| 0 <= q < s.len() ==> s[q] >= 1,
    ensures
        sum(s) >= s.len(),
    decreases s.len(),
{
    if s.len() > 0 {
        lemma_sum_of_positives(s.drop_last());
    }
}

/// Every card keeps at least its own instance, so the cascade leaves at
/// least as many instances as there are cards.
pub proof fn lemma_total_at_least_cards(ms: Seq<nat>)
    ensures
        cascaded(ms).len() == ms.len(),
        forall|q: int| 0 <= q < ms.len() ==> cascaded(ms)[q] >= 1,
        sum(cascaded(ms)) >= ms.len(),
{
    lemma_cascade_len(ms, ms.len());
    assert forall|q: int| 0 <= q < ms.len() implies cascaded(ms)[q] >= 1 by {
        lemma_cascade_grows(ms, 0, ms.len(), q);
    }
    lemma_sum_of_positives(cascaded(ms));
}

/// A card without matches hands out no copies: its step of the cascade
/// leaves every count as it was.
pub proof fn lemma_no_matches_no_copies(ms: Seq<nat>, counts: Seq<nat>, p: int)
    requires
        0 <= p < ms.len(),
        ms[p] == 0,
    ensures
        propagate(ms, counts, p) == counts,
{
    assert(propagate(ms, counts, p) =~= counts);
}

/// The cascade gives copies to later cards only.
pub proof fn lemma_copies_go_forward(ms: Seq<nat>, counts: Seq<nat>, p: int, q: int)
    requires
        0 <= p < ms.len(),
        0 <= q <= p,
        q < counts.len(),
    ensures
        propagate(ms, counts, p)[q] == counts[q],
{
}

/// The cascade would give a card more instances than a `usize` holds.
#[derive(Debug, Clone, Copy, PartialEq, Eq, Structural)]
pub struct InstanceOverflow;

/// All cards of a run, by position, each with its instance count.
pub struct CardLedger {
    cards: Vec<ScratchCardGame>,
}

impl CardLedger {
    /// The cards; the card at position `p` (counted from 1) is at `p - 1`.
    pub closed spec fn cards(&self) -> Seq<ScratchCardGame> {
        self.cards@
    }

    pub open spec fn wf(&self) -> bool {
        forall|k: int| 0 <= k < self.cards().len() ==> (#[trigger] self.cards()[k]).wf()
    }

    pub open spec fn match_counts(&self) -> Seq<nat> {
        card_match_counts(self.cards())
    }

    pub open spec fn instance_counts(&self) -> Seq<nat> {
        card_instance_counts(self.cards())
    }

    /// Both ledgers hold the same numbers at each position.
    pub open spec fn same_cards(&self, other: &CardLedger) -> bool {
        &&& self.cards().len() == other.cards().len()
        &&& forall|k: int| 0 <= k < self.cards().len() ==> {
            &&& (#[trigger] self.cards()[k]).winning_seq() == other.cards()[k].winning_seq()
            &&& self.cards()[k].played_seq() == other.cards()[k].played_seq()
        }
    }

    /// `after` is `before` once the cascade has run: the same cards, with
    /// the instance counts that the cascade gives.
    pub open spec fn cascade_done(before: &CardLedger, after: &CardLedger) -> bool {
        &&& after.wf()
        &&& after.same_cards(before)
        &&& after.instance_counts() == cascaded(before.match_counts())
    }

    /// The number of cards.
    pub fn len(&self) -> (r: usize)
        ensures
            r == self.cards().len(),
    {
        self.cards.len()
    }

    /// The instance count of the card at `position`, counted from 1.
    pub fn instances_at(&self, position: usize) -> (r: usize)
        requires
            1 <= position <= self.cards().len(),
        ensures
            r == self.instance_counts()[position - 1],
    {
        self.cards[position - 1].instances()
    }

    /// The card at `position`, counted from 1.
    pub fn card_at(&self, position: usize) -> (r: &ScratchCardGame)
        requires
            1 <= position <= self.cards().len(),
        ensures
            *r == self.cards()[position - 1],
    {
        &self.cards[position - 1]
    }

    /// Runs the cascade: every card starts from one instance, then each
    /// card in turn, from the first, adds its own instance count to each of
    /// the next cards, as many as it has matches and as far as cards exist.
    /// Fails, and leaves the ledger as it was, when a count would not fit in
    /// a `usize`.
    pub fn cascade(&mut self) -> (r: Result<(), InstanceOverflow>)
        requires
            old(self).wf(),
        ensures
            match r {
                Ok(()) => CardLedger::cascade_done(old(self), final(self)),
                Err(_) => {
                    &&& *final(self) == *old(self)
                    &&& exists|q: int| 0 <= q < old(self).cards().len()
                        && cascaded(old(self).match_counts())[q] > usize::MAX
                },
            },
    {
        let n = self.cards.len();
        let ms = match_counts_of(&self.cards);
        assert(as_nats(ms@) == self.match_counts());
        let counts = match cascade_counts(&ms) {
            Some(v) => v,
            None => {
                return Err(InstanceOverflow);
            },
        };
        proof {
            lemma_cascade_len(self.match_counts(), n as nat);
        }
        let ghost start = *self;
        let mut i: usize = 0;
        while i < n
            invariant
                n == self.cards().len(),
                n == counts.len(),
                as_nats(counts@) == cascaded(start.match_counts()),
                self.wf(),
                i <= n,
                self.same_cards(&start),
                forall|k: int| 0 <= k < i ==> #[trigger] self.cards()[k].instance_count() == counts@[k],
            decreases n - i,
        {
            self.cards[i].set_instances(counts[i]);
            i = i + 1;
        }
        assert(self.instance_counts() =~= as_nats(counts@));
        Ok(())
    }

    /// The number of instances of all cards together, or `None` when it does
    /// not fit in a `usize`.
    pub fn total_instances(&self) -> (r: Option<usize>)
        ensures
            r == if sum(self.instance_counts()) <= usize::MAX {
                Some(sum(self.instance_counts()) as usize)
            } else {
                None::<usize>
            },
    {
        let ghost counts = self.instance_counts();
        let mut total: usize = 0;
        let mut i: usize = 0;
        while i < self.cards.len()
            invariant
                counts == self.instance_counts(),
                i <= self.cards().len(),
                total == sum(counts.take(i as int)),
            decreases self.cards().len() - i,
        {
            assert(counts.take(i + 1).drop_last() == counts.take(i as int));
            match total.checked_add(self.cards[i].instances()) {
                Some(t) => {
                    total = t;
                },
                None => {
                    proof {
                        lemma_sum_grows(counts, i + 1, counts.len() as int);
                        assert(counts.take(counts.len() as int) == counts);
                    }
                    return None;
                },
            }
            i = i + 1;
        }
        assert(counts.take(counts.len() as int) == counts);
        Some(total)
    }

    /// Adds one instance of the card at `position`, counted from 1.
    pub fn increase_instances_by_1(&mut self, position: usize)
        requires
            old(self).wf(),
            1 <= position <= old(self).cards().len(),
            old(self).instance_counts()[position - 1] < usize::MAX,
        ensures
            final(self).wf(),
            final(self).same_cards(old(self)),
            final(self).instance_counts() == old(self).instance_counts().update(
                position - 1,
                old(self).instance_counts()[position - 1] + 1,
            ),
    {
        let i = position - 1;
        self.cards[i].increase_number_of_instances_by_1();
        assert(self.instance_counts() =~= old(self).instance_counts().update(
            position - 1,
            old(self).instance_counts()[position - 1] + 1,
        ));
    }
}

/// Reads one card from each line, in order: the line at index `i` becomes
/// the card at position `i + 1`, with one instance. Fails with the error of
/// the first line that does not describe a card.
pub fn generate_card_store(input: Vec<&str>) -> (r: Result<CardLedger, ParseError>)
    ensures
        match r {
            Ok(ledger) => {
                &&& ledger.wf()
                &&& ledger.cards().len() == input.len()
                &&& forall|k: int| 0 <= k < input.len() ==> read_from(
                    #[trigger] ledger.cards()[k],
                    input@[k]@,
                )
            },
            Err(e) => exists|k: int| {
                &&& 0 <= k < input.len()
                &&& line_error(#[trigger] input@[k]@) == Some(e)
                &&& forall|j: int| 0 <= j < k ==> line_error(#[trigger] input@[j]@) is None
            },
        },
{
    let mut cards: Vec<ScratchCardGame> = Vec::new();
    let mut i: usize = 0;
    while i < input.len()
        invariant
            i <= input.len(),
            cards.len() == i,
            forall|k: int| 0 <= k < i ==> read_from(#[trigger] cards@[k], input@[k]@),
        decreases input.len() - i,
    {
        match parse_line(input[i]) {
            Ok(card) => {
                cards.push(card);
            },
            Err(e) => {
                assert forall|j: int| 0 <= j < i implies line_error(#[trigger] input@[j]@) is None by {
                    assert(read_from(cards@[j], input@[j]@));
                }
                assert(line_error(input@[i as int]@) == Some(e));
                return Err(e);
            },
        }
        i = i + 1;
    }
    Ok(CardLedger { cards })
}

/// The match count of each card, in order.
fn match_counts_of(input: &Vec<ScratchCardGame>) -> (ms: Vec<usize>)
    requires
        forall|k: int| 0 <= k < input.len() ==> (#[trigger] input@[k]).wf(),
    ensures
        ms.len() == input.len(),
        as_nats(ms@) == card_match_counts(input@),
{
    let n = input.len();
    let mut ms: Vec<usize> = Vec::new();
    let mut i: usize = 0;
    while i < n
        invariant
            n == input.len(),
            forall|k: int| 0 <= k < input.len() ==> (#[trigger] input@[k]).wf(),
            i <= n,
            ms.len() == i,
            as_nats(ms@) == card_match_counts(input@).take(i as int),
        decreases n - i,
    {
        let m = input[i].match_count();
        let ghost prev = ms@;
        ms.push(m);
        assert(ms@ == prev.push(m));
        assert forall|k: int| 0 <= k < i implies as_nats(ms@)[k] == card_match_counts(input@)[k] by {
            assert(as_nats(prev)[k] == card_match_counts(input@).take(i as int)[k]);
        }
        assert(as_nats(ms@) =~= card_match_counts(input@).take(i + 1));
        i = i + 1;
    }
    assert(as_nats(ms@) =~= card_match_counts(input@));
    ms
}

/// The same cards, in order and with the same numbers, each holding the
/// instances that the cascade gives it; `None` when one of those counts
/// does not fit in a `usize`.
pub fn replicate_card_instance(input: &Vec<ScratchCardGame>) -> (r: Option<Vec<ScratchCardGame>>)
    requires
        forall|k: int| 0 <= k < input.len() ==> (#[trigger] input@[k]).wf(),
    ensures
        match r {
            Some(v) => {
                &&& v.len() == input.len()
                &&& forall|k: int| 0 <= k < v.len() ==> {
                    &&& (#[trigger] v@[k]).wf()
                    &&& v@[k].winning_seq() == input@[k].winning_seq()
                    &&& v@[k].played_seq() == input@[k].played_seq()
                }
                &&& card_instance_counts(v@) == cascaded(card_match_counts(input@))
            },
            None => exists|q: int| 0 <= q < input.len()
                && cascaded(card_match_counts(input@))[q] > usize::MAX,
        },
{
    let n = input.len();
    let ms = match_counts_of(input);
    let counts = match cascade_counts(&ms) {
        Some(v) => v,
        None => {
            return None;
        },
    };
    proof {
        lemma_cascade_len(card_match_counts(input@), n as nat);
    }
    let mut r: Vec<ScratchCardGame> = Vec::new();
    let mut j: usize = 0;
    while j < n
        invariant
            n == input.len(),
            n == counts.len(),
            forall|k: int| 0 <= k < input.len() ==> (#[trigger] input@[k]).wf(),
            as_nats(counts@) == cascaded(card_match_counts(input@)),
            j <= n,
            r.len() == j,
            forall|k: int| 0 <= k < j ==> {
                &&& (#[trigger] r@[k]).wf()
                &&& r@[k].winning_seq() == input@[k].winning_seq()
                &&& r@[k].played_seq() == input@[k].played_seq()
                &&& r@[k].instance_count() == counts@[k]
            },
        decreases n - j,
    {
        let mut card = input[j].duplicate();
        card.set_instances(counts[j]);
        r.push(card);
        j = j + 1;
    }
    assert(card_instance_counts(r@) =~= as_nats(counts@));
    Some(r)
}

/// Running the cascade again on its own result changes no count.
pub proof fn lemma_cascade_idempotent(first: CardLedger, once: CardLedger, twice: CardLedger)
    requires
        CardLedger::cascade_done(&first, &once),
        CardLedger::cascade_done(&once, &twice),
    ensures
        twice.same_cards(&once),
        twice.instance_counts() == once.instance_counts(),
{
    assert(once.match_counts() =~= first.match_counts());
}

} // verus!
