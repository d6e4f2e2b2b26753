//! A single scratch card: its winning numbers, the numbers played, and how
//! many copies of it are held.
use vstd::prelude::*;

verus! {

/// The characters of each token in a list, in order.
pub open spec fn token_views(v: Seq<String>) -> Seq<Seq<char>> {
    v.map_values(|s: String| s@)
}

/// How many numbers two sets share.
pub open spec fn shared_count(winning: Set<Seq<char>>, played: Set<Seq<char>>) -> nat {
    winning.intersect(played).len()
}

/// Which list is called winning and which played does not change how many
/// numbers a card shares.
pub proof fn lemma_shared_count_symmetric(a: Set<Seq<char>>, b: Set<Seq<char>>)
    ensures
        shared_count(a, b) == shared_count(b, a),
{
    assert(a.intersect(b) =~= b.intersect(a));
}

/// A copy of a list of tokens.
fn copy_tokens(v: &Vec<String>) -> (r: Vec<String>)
    ensures
        r@ == v@,
{
    let mut r: Vec<String> = Vec::new();
    let mut i: usize = 0;
    while i < v.len()
        invariant
            i <= v.len(),
            r@ == v@.take(i as int),
        decreases v.len() - i,
    {
        r.push(v[i].clone());
        assert(r@ == v@.take(i + 1));
        i = i + 1;
    }
    assert(v@.take(v.len() as int) == v@);
    r
}

/// Whether every token of `a` is also a token of `b`.
fn all_held_in(a: &Vec<String>, b: &Vec<String>) -> (r: bool)
    ensures
        r == token_views(a@).to_set().subset_of(token_views(b@).to_set()),
{
    let mut i: usize = 0;
    while i < a.len()
        invariant
            i <= a.len(),
            forall|k: int| 0 <= k < i ==> token_views(b@).contains(#[trigger] token_views(a@)[k]),
        decreases a.len() - i,
    {
        if !holds_token(b, &a[i]) {
            assert(token_views(a@).to_set().contains(token_views(a@)[i as int]));
            return false;
        }
        i = i + 1;
    }
    assert forall|t: Seq<char>| token_views(a@).to_set().contains(t) implies token_views(b@).to_set().contains(t) by {
        let k = choose|k: int| 0 <= k < token_views(a@).len() && token_views(a@)[k] == t;
    }
    true
}

/// Whether `a` and `b` hold the same tokens, in whatever order.
fn same_tokens(a: &Vec<String>, b: &Vec<String>) -> (r: bool)
    ensures
        r == (token_views(a@).to_set() == token_views(b@).to_set()),
{
    let r = all_held_in(a, b) && all_held_in(b, a);
    proof {
        if r {
            assert(token_views(a@).to_set() =~= token_views(b@).to_set());
        }
    }
    r
}

/// One card: the winning numbers and the numbers played, each kept as text
/// and without repeats, and the number of instances of the card.
#[derive(Clone, Debug)]
pub struct ScratchCardGame {
    game_winners: Vec<String>,
    player_selection: Vec<String>,
    instances: usize,
}

/// Whether `t` is the text of one of the tokens in `v`.
pub(crate) fn holds_token(v: &Vec<String>, t: &String) -> (r: bool)
    ensures
        r == token_views(v@).contains(t@),
{
    let mut i: usize = 0;
    while i < v.len()
        invariant
            i <= v.len(),
            forall|k: int| 0 <= k < i ==> v@[k]@ != t@,
        decreases v.len() - i,
    {
        if v[i] == *t {
            assert(token_views(v@)[i as int] == t@);
            return true;
        }
        i = i + 1;
    }
    proof {
        if token_views(v@).contains(t@) {
            let k = choose|k: int| 0 <= k < token_views(v@).len() && token_views(v@)[k] == t@;
            assert(v@[k]@ == t@);
        }
    }
    false
}

impl PartialEq for ScratchCardGame {
    /// Two cards are equal when they hold the same sets of numbers and the
    /// same number of instances.
    fn eq(&self, other: &ScratchCardGame) -> (r: bool) {
        same_tokens(&self.game_winners, &other.game_winners)
            && same_tokens(&self.player_selection, &other.player_selection)
            && self.instances == other.instances
    }
}

impl vstd::std_specs::cmp::PartialEqSpecImpl for ScratchCardGame {
    open spec fn obeys_eq_spec() -> bool {
        true
    }

    open spec fn eq_spec(&self, other: &ScratchCardGame) -> bool {
        &&& self.winning_set() == other.winning_set()
        &&& self.played_set() == other.played_set()
        &&& self.instance_count() == other.instance_count()
    }
}

impl ScratchCardGame {
    /// The winning numbers, in the order in which they are stored.
    pub closed spec fn winning_seq(&self) -> Seq<Seq<char>> {
        token_views(self.game_winners@)
    }

    /// The numbers played, in the order in which they are stored.
    pub closed spec fn played_seq(&self) -> Seq<Seq<char>> {
        token_views(self.player_selection@)
    }

    /// How many instances of this card are held.
    pub closed spec fn instance_count(&self) -> nat {
        self.instances as nat
    }

    pub open spec fn winning_set(&self) -> Set<Seq<char>> {
        self.winning_seq().to_set()
    }

    pub open spec fn played_set(&self) -> Set<Seq<char>> {
        self.played_seq().to_set()
    }

    /// Both lists are non-empty and hold each number once.
    pub open spec fn wf(&self) -> bool {
        &&& self.winning_seq().len() > 0
        &&& self.played_seq().len() > 0
        &&& self.winning_seq().no_duplicates()
        &&& self.played_seq().no_duplicates()
    }

    /// How many of the numbers played are winning numbers.
    pub open spec fn spec_match_count(&self) -> nat {
        shared_count(self.winning_set(), self.played_set())
    }

    /// Both cards hold the same numbers and the same number of instances.
    pub open spec fn same_as(&self, other: &ScratchCardGame) -> bool {
        &&& self.winning_seq() == other.winning_seq()
        &&& self.played_seq() == other.played_seq()
        &&& self.instance_count() == other.instance_count()
    }

    /// A card with the given numbers and one instance.
    pub(crate) fn from_numbers(game_winners: Vec<String>, player_selection: Vec<String>) -> (r: Self)
        requires
            token_views(game_winners@).len() > 0,
            token_views(player_selection@).len() > 0,
            token_views(game_winners@).no_duplicates(),
            token_views(player_selection@).no_duplicates(),
        ensures
            r.wf(),
            r.winning_seq() == token_views(game_winners@),
            r.played_seq() == token_views(player_selection@),
            r.instance_count() == 1,
    {
        ScratchCardGame { game_winners, player_selection, instances: 1 }
    }

    /// The numbers that are both played and winning, each once.
    pub fn establish_winning_player_selection(&self) -> (r: Vec<String>)
        requires
            self.wf(),
        ensures
            token_views(r@).no_duplicates(),
            token_views(r@).to_set() == self.winning_set().intersect(self.played_set()),
            r.len() == self.spec_match_count(),
    {
        let mut shared: Vec<String> = Vec::new();
        let mut i: usize = 0;
        while i < self.player_selection.len()
            invariant
                self.wf(),
                i <= self.player_selection.len(),
                token_views(shared@).no_duplicates(),
                forall|t: Seq<char>| #[trigger] token_views(shared@).contains(t) <==> (
                    self.winning_set().contains(t)
                    && exists|k: int| 0 <= k < i && self.played_seq()[k] == t),
            decreases self.player_selection.len() - i,
        {
            let ghost before = token_views(shared@);
            let ghost t = self.player_selection@[i as int]@;
            assert(self.played_seq()[i as int] == t);
            let found = holds_token(&self.game_winners, &self.player_selection[i]);
            assert(found == self.winning_set().contains(t));
            assert(!before.contains(t)) by {
                if before.contains(t) {
                    let k = choose|k: int| 0 <= k < i && self.played_seq()[k] == t;
                    assert(self.played_seq()[k] != self.played_seq()[i as int]);
                }
            }
            if found {
                shared.push(self.player_selection[i].clone());
                assert(token_views(shared@) == before.push(t));
                assert forall|a: int, b: int|
                    0 <= a < token_views(shared@).len() && 0 <= b < token_views(shared@).len() && a != b
                    implies token_views(shared@)[a] != token_views(shared@)[b] by {
                    if a == before.len() {
                        assert(before.contains(token_views(shared@)[b]));
                    } else if b == before.len() {
                        assert(before.contains(token_views(shared@)[a]));
                    }
                }
            } else {
                assert(token_views(shared@) == before);
            }
            assert forall|u: Seq<char>| #[trigger] token_views(shared@).contains(u) <==> (
                self.winning_set().contains(u)
                && exists|k: int| 0 <= k < i + 1 && self.played_seq()[k] == u) by {
                if u == t {
                    if found {
                        assert(token_views(shared@)[before.len() as int] == t);
                    }
                } else {
                    if exists|k: int| 0 <= k < i + 1 && self.played_seq()[k] == u {
                        let k = choose|k: int| 0 <= k < i + 1 && self.played_seq()[k] == u;
                        assert(k < i);
                    }
                    assert(token_views(shared@).contains(u) == before.contains(u)) by {
                        if before.contains(u) {
                            let j = choose|j: int| 0 <= j < before.len() && before[j] == u;
                            assert(token_views(shared@)[j] == u);
                        }
                        if token_views(shared@).contains(u) {
                            let j = choose|j: int| 0 <= j < token_views(shared@).len()
                                && token_views(shared@)[j] == u;
                            assert(before[j] == u);
                        }
                    }
                }
            }
            i = i + 1;
        }
        proof {
            let v = token_views(shared@);
            assert(v.to_set() =~= self.winning_set().intersect(self.played_set())) by {
                assert forall|t: Seq<char>| #[trigger] self.played_set().contains(t) implies
                    exists|k: int| 0 <= k < self.player_selection.len() && self.played_seq()[k] == t
                by {
                    let k = choose|k: int| 0 <= k < self.played_seq().len() && self.played_seq()[k] == t;
                }
            }
            v.unique_seq_to_set();
        }
        shared
    }

    /// The winning numbers.
    pub fn winning_numbers(&self) -> (r: Vec<String>)
        ensures
            token_views(r@) == self.winning_seq(),
    {
        copy_tokens(&self.game_winners)
    }

    /// The numbers played.
    pub fn played_numbers(&self) -> (r: Vec<String>)
        ensures
            token_views(r@) == self.played_seq(),
    {
        copy_tokens(&self.player_selection)
    }

    /// How many instances of this card are held.
    pub fn instances(&self) -> (r: usize)
        ensures
            r == self.instance_count(),
    {
        self.instances
    }

    /// How many of the numbers played are winning numbers.
    pub fn match_count(&self) -> (r: usize)
        requires
            self.wf(),
        ensures
            r == self.spec_match_count(),
    {
        self.establish_winning_player_selection().len()
    }

    /// A copy of this card.
    pub fn duplicate(&self) -> (r: ScratchCardGame)
        ensures
            r.same_as(self),
    {
        ScratchCardGame {
            game_winners: copy_tokens(&self.game_winners),
            player_selection: copy_tokens(&self.player_selection),
            instances: self.instances,
        }
    }

    /// Sets how many instances of this card are held.
    pub(crate) fn set_instances(&mut self, instances: usize)
        ensures
            final(self).instance_count() == instances,
            final(self).winning_seq() == old(self).winning_seq(),
            final(self).played_seq() == old(self).played_seq(),
    {
        self.instances = instances;
    }

    /// Adds one instance of this card.
    pub fn increase_number_of_instances_by_1(&mut self)
        requires
            old(self).instance_count() < usize::MAX,
        ensures
            final(self).instance_count() == old(self).instance_count() + 1,
            final(self).winning_seq() == old(self).winning_seq(),
            final(self).played_seq() == old(self).played_seq(),
    {
        self.instances += 1;
    }
}

} // verus!
