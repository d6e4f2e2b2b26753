//! Reading one card from a line of the form `Card 7: 1 2 3 | 4 5 6`.
use vstd::prelude::*;
use crate::card::{holds_token, token_views, ScratchCardGame};

verus! {

/// Why a line does not describe a card.
#[derive(Debug, Clone, Copy, PartialEq, Eq, Structural)]
pub enum ParseError {
    /// The line does not hold exactly one `:` after its label.
    LabelSeparator,
    /// The text after the `:` does not hold exactly one `|`.
    ListSeparator,
    /// No number stands before the `|`.
    NoWinningNumbers,
    /// No number stands after the `|`.
    NoPlayedNumbers,
}

pub open spec fn is_digit(c: char) -> bool {
    '0' <= c && c <= '9'
}

/// The characters that separate numbers.
pub open spec fn is_blank(c: char) -> bool {
    c == ' ' || c == '\t' || c == '\n' || c == '\r' || c == '\x0C'
}

pub open spec fn has_digit(t: Seq<char>) -> bool {
    exists|k: int| 0 <= k < t.len() && is_digit(#[trigger] t[k])
}

/// `s[i..j]` is a maximal run of characters that are not blank.
pub open spec fn is_word(s: Seq<char>, i: int, j: int) -> bool {
    &&& 0 <= i < j <= s.len()
    &&& (i == 0 || is_blank(s[i - 1]))
    &&& (j == s.len() || is_blank(s[j]))
    &&& forall|k: int| i <= k < j ==> !is_blank(#[trigger] s[k])
}

/// The words of `s` that hold a digit.
pub open spec fn number_tokens(s: Seq<char>) -> Set<Seq<char>> {
    Set::new(|t: Seq<char>| exists|i: int, j: int| #[trigger] is_word(s, i, j) && t == s.subrange(i, j) && has_digit(t))
}

/// `c` stands at `i` in `s` and nowhere else.
pub open spec fn only_at(s: Seq<char>, c: char, i: int) -> bool {
    &&& 0 <= i < s.len()
    &&& s[i] == c
    &&& forall|k: int| 0 <= k < s.len() && #[trigger] s[k] == c ==> k == i
}

pub open spec fn occurs_once(s: Seq<char>, c: char) -> bool {
    exists|i: int| only_at(s, c, i)
}

pub open spec fn position_of(s: Seq<char>, c: char) -> int {
    choose|i: int| only_at(s, c, i)
}

/// What follows the `:` of a line.
pub open spec fn after_label(s: Seq<char>) -> Seq<char> {
    s.subrange(position_of(s, ':') + 1, s.len() as int)
}

/// The text of the winning numbers: between the `:` and the `|`.
pub open spec fn winning_text(s: Seq<char>) -> Seq<char> {
    let r = after_label(s);
    r.subrange(0, position_of(r, '|'))
}

/// The text of the numbers played: after the `|`.
pub open spec fn played_text(s: Seq<char>) -> Seq<char> {
    let r = after_label(s);
    r.subrange(position_of(r, '|') + 1, r.len() as int)
}

/// The error that a line gives, if any.
pub open spec fn line_error(s: Seq<char>) -> Option<ParseError> {
    if !occurs_once(s, ':') {
        Some(ParseError::LabelSeparator)
    } else if !occurs_once(after_label(s), '|') {
        Some(ParseError::ListSeparator)
    } else if number_tokens(winning_text(s)) == Set::<Seq<char>>::empty() {
        Some(ParseError::NoWinningNumbers)
    } else if number_tokens(played_text(s)) == Set::<Seq<char>>::empty() {
        Some(ParseError::NoPlayedNumbers)
    } else {
        None
    }
}

/// `card` is the card that `line` describes, with one instance.
pub open spec fn read_from(card: ScratchCardGame, line: Seq<char>) -> bool {
    &&& line_error(line) is None
    &&& card.wf()
    &&& card.winning_set() == number_tokens(winning_text(line))
    &&& card.played_set() == number_tokens(played_text(line))
    &&& card.instance_count() == 1
}

/// The characters of `s`, one by one.
fn chars_of(s: &str) -> (r: Vec<char>)
    ensures
        r@ == s@,
{
    let mut r: Vec<char> = Vec::new();
    for c in it: s.chars()
        invariant
            r@ == it.seq().take(it.index() as int),
    {
        r.push(c);
    }
    r
}

/// Where `c` stands in `v`, when it stands there exactly once.
fn find_single(v: &Vec<char>, c: char) -> (r: Option<usize>)
    ensures
        match r {
            Some(i) => only_at(v@, c, i as int),
            None => !occurs_once(v@, c),
        },
{
    let mut found: Option<usize> = None;
    let mut i: usize = 0;
    while i < v.len()
        invariant
            i <= v.len(),
            match found {
                Some(p) => p < i && v@[p as int] == c
                    && forall|k: int| 0 <= k < i && #[trigger] v@[k] == c ==> k == p,
                None => forall|k: int| 0 <= k < i ==> #[trigger] v@[k] != c,
            },
        decreases v.len() - i,
    {
        if v[i] == c {
            match found {
                Some(p) => {
                    proof {
                        if occurs_once(v@, c) {
                            let q = choose|q: int| only_at(v@, c, q);
                            assert(v@[p as int] == c);
                        }
                    }
                    return None;
                },
                None => {
                    found = Some(i);
                },
            }
        }
        i = i + 1;
    }
    proof {
        if found is None && occurs_once(v@, c) {
            let q = choose|q: int| only_at(v@, c, q);
            assert(v@[q] == c);
        }
    }
    found
}

fn blank(c: char) -> (r: bool)
    ensures
        r == is_blank(c),
{
    c == ' ' || c == '\t' || c == '\n' || c == '\r' || c == '\x0C'
}

fn digit(c: char) -> (r: bool)
    ensures
        r == is_digit(c),
{
    '0' <= c && c <= '9'
}

/// The number tokens of `s` whose word ends before position `k`.
spec fn tokens_before(s: Seq<char>, k: int) -> Set<Seq<char>> {
    Set::new(|t: Seq<char>| exists|i: int, j: int| #[trigger] is_word(s, i, j) && j < k && t == s.subrange(i, j) && has_digit(t))
}

proof fn lemma_all_tokens(s: Seq<char>)
    ensures
        number_tokens(s) == tokens_before(s, s.len() as int + 1),
{
    assert(number_tokens(s) =~= tokens_before(s, s.len() as int + 1));
}

proof fn lemma_no_word_ends_at(s: Seq<char>, k: int)
    requires
        forall|i: int| !is_word(s, i, k),
    ensures
        tokens_before(s, k + 1) == tokens_before(s, k),
{
    assert forall|t: Seq<char>| #[trigger] tokens_before(s, k + 1).contains(t) implies tokens_before(s, k).contains(t) by {
        let (i, j) = choose|i: int, j: int| #[trigger] is_word(s, i, j) && j < k + 1 && t == s.subrange(i, j) && has_digit(t);
        assert(j != k);
    }
    assert(tokens_before(s, k + 1) =~= tokens_before(s, k));
}

proof fn lemma_word_ends_at(s: Seq<char>, start: int, k: int)
    requires
        is_word(s, start, k),
        forall|i: int| #[trigger] is_word(s, i, k) ==> i == start,
    ensures
        tokens_before(s, k + 1) == if has_digit(s.subrange(start, k)) {
            tokens_before(s, k).insert(s.subrange(start, k))
        } else {
            tokens_before(s, k)
        },
{
    let w = s.subrange(start, k);
    let next = if has_digit(w) { tokens_before(s, k).insert(w) } else { tokens_before(s, k) };
    assert forall|t: Seq<char>| #[trigger] tokens_before(s, k + 1).contains(t) implies next.contains(t) by {
        let (i, j) = choose|i: int, j: int| #[trigger] is_word(s, i, j) && j < k + 1 && t == s.subrange(i, j) && has_digit(t);
        if j == k {
            assert(i == start);
        } else {
            assert(tokens_before(s, k).contains(t));
        }
    }
    assert forall|t: Seq<char>| next.contains(t) implies #[trigger] tokens_before(s, k + 1).contains(t) by {
        if t == w && has_digit(w) {
            assert(is_word(s, start, k));
        } else {
            let (i, j) = choose|i: int, j: int| #[trigger] is_word(s, i, j) && j < k && t == s.subrange(i, j) && has_digit(t);
            assert(is_word(s, i, j));
        }
    }
    assert(tokens_before(s, k + 1) =~= next);
}

/// A run that starts after a blank and reaches a blank or the end is the
/// only word that ends there.
proof fn lemma_run_is_word(s: Seq<char>, start: int, k: int)
    requires
        0 <= start < k <= s.len(),
        start == 0 || is_blank(s[start - 1]),
        k == s.len() || is_blank(s[k]),
        forall|m: int| start <= m < k ==> !is_blank(#[trigger] s[m]),
    ensures
        is_word(s, start, k),
        forall|i: int| #[trigger] is_word(s, i, k) ==> i == start,
{
    assert forall|i: int| #[trigger] is_word(s, i, k) implies i == start by {
        if i < start {
            assert(!is_blank(s[start - 1]));
        } else if i > start {
            assert(!is_blank(s[i - 1]));
        }
    }
}

proof fn lemma_has_digit_extend(s: Seq<char>, a: int, b: int)
    requires
        0 <= a <= b < s.len(),
    ensures
        has_digit(s.subrange(a, b + 1)) == (has_digit(s.subrange(a, b)) || is_digit(s[b])),
{
    let x = s.subrange(a, b);
    let y = s.subrange(a, b + 1);
    if has_digit(y) {
        let m = choose|m: int| 0 <= m < y.len() && is_digit(#[trigger] y[m]);
        if m < x.len() {
            assert(x[m] == y[m]);
        }
    }
    if has_digit(x) {
        let m = choose|m: int| 0 <= m < x.len() && is_digit(#[trigger] x[m]);
        assert(y[m] == x[m]);
    }
    if is_digit(s[b]) {
        assert(y[b - a] == s[b]);
    }
}

/// Adds `t` to `out` unless a token with its text is there already.
fn add_token(out: &mut Vec<String>, t: String)
    requires
        token_views(old(out)@).no_duplicates(),
    ensures
        token_views(final(out)@).no_duplicates(),
        token_views(final(out)@).to_set() == token_views(old(out)@).to_set().insert(t@),
{
    let ghost before = token_views(out@);
    if holds_token(out, &t) {
        assert(before.to_set() =~= before.to_set().insert(t@));
    } else {
        out.push(t);
        assert(token_views(out@) == before.push(t@));
        assert forall|a: int, b: int|
            0 <= a < token_views(out@).len() && 0 <= b < token_views(out@).len() && a != b
            implies token_views(out@)[a] != token_views(out@)[b] by {
            if a == before.len() {
                assert(before.contains(token_views(out@)[b]));
            } else if b == before.len() {
                assert(before.contains(token_views(out@)[a]));
            }
        }
        assert(token_views(out@).to_set() =~= before.to_set().insert(t@)) by {
            assert forall|u: Seq<char>| #[trigger] token_views(out@).contains(u) implies before.to_set().insert(t@).contains(u) by {
                let j = choose|j: int| 0 <= j < token_views(out@).len() && token_views(out@)[j] == u;
                if j < before.len() {
                    assert(before[j] == u);
                }
            }
            assert forall|u: Seq<char>| before.to_set().insert(t@).contains(u) implies #[trigger] token_views(out@).contains(u) by {
                if u == t@ {
                    assert(token_views(out@)[before.len() as int] == u);
                } else {
                    let j = choose|j: int| 0 <= j < before.len() && before[j] == u;
                    assert(token_views(out@)[j] == u);
                }
            }
        }
    }
}

/// The number tokens of `s`, each once.
fn numbers_in(s: &str) -> (r: Vec<String>)
    ensures
        token_views(r@).no_duplicates(),
        token_views(r@).to_set() == number_tokens(s@),
{
    let chars = chars_of(s);
    let n = chars.len();
    let mut out: Vec<String> = Vec::new();
    let mut in_word = false;
    let mut start: usize = 0;
    let mut seen_digit = false;
    let mut k: usize = 0;
    assert(token_views(out@).to_set() =~= tokens_before(s@, 0));
    while k < n
        invariant
            chars@ == s@,
            n == chars.len(),
            k <= n,
            token_views(out@).no_duplicates(),
            token_views(out@).to_set() == tokens_before(s@, k as int),
            in_word ==> {
                &&& start < k
                &&& (start == 0 || is_blank(s@[start - 1]))
                &&& forall|m: int| start <= m < k ==> !is_blank(#[trigger] s@[m])
                &&& seen_digit == has_digit(s@.subrange(start as int, k as int))
            },
            !in_word ==> k == 0 || is_blank(s@[k - 1]),
        decreases n - k,
    {
        let c = chars[k];
        if blank(c) {
            if in_word {
                proof {
                    lemma_run_is_word(s@, start as int, k as int);
                    lemma_word_ends_at(s@, start as int, k as int);
                }
                if seen_digit {
                    add_token(&mut out, s.substring_char(start, k).to_owned());
                }
                in_word = false;
            } else {
                proof {
                    lemma_no_word_ends_at(s@, k as int);
                }
            }
        } else {
            proof {
                lemma_no_word_ends_at(s@, k as int);
            }
            if in_word {
                proof {
                    lemma_has_digit_extend(s@, start as int, k as int);
                }
                seen_digit = seen_digit || digit(c);
            } else {
                proof {
                    lemma_has_digit_extend(s@, k as int, k as int);
                }
                in_word = true;
                start = k;
                seen_digit = digit(c);
            }
        }
        k = k + 1;
    }
    proof {
        lemma_all_tokens(s@);
        if in_word {
            lemma_run_is_word(s@, start as int, n as int);
            lemma_word_ends_at(s@, start as int, n as int);
        } else {
            lemma_no_word_ends_at(s@, n as int);
        }
    }
    if in_word && seen_digit {
        add_token(&mut out, s.substring_char(start, n).to_owned());
    }
    out
}

/// Reads one card from a line: a label, a `:`, the winning numbers, a `|`
/// and the numbers played. A number is a run of non-blank characters that
/// holds a digit; repeats collapse. The card starts with one instance.
pub fn parse_line(input: &str) -> (r: Result<ScratchCardGame, ParseError>)
    ensures
        match r {
            Ok(card) => read_from(card, input@),
            Err(e) => line_error(input@) == Some(e),
        },
{
    let chars = chars_of(input);
    let colon = match find_single(&chars, ':') {
        Some(i) => i,
        None => {
            return Err(ParseError::LabelSeparator);
        },
    };
    proof {
        assert(position_of(input@, ':') == colon);
        assert(colon < chars.len());
    }
    let rest = input.substring_char(colon + 1, chars.len());
    assert(rest@ == after_label(input@));
    let rest_chars = chars_of(rest);
    let bar = match find_single(&rest_chars, '|') {
        Some(i) => i,
        None => {
            return Err(ParseError::ListSeparator);
        },
    };
    proof {
        assert(position_of(rest@, '|') == bar);
    }
    let winning = numbers_in(rest.substring_char(0, bar));
    if winning.len() == 0 {
        assert(number_tokens(winning_text(input@)) =~= Set::<Seq<char>>::empty());
        return Err(ParseError::NoWinningNumbers);
    }
    assert(token_views(winning@).to_set().contains(token_views(winning@)[0]));
    let played = numbers_in(rest.substring_char(bar + 1, rest_chars.len()));
    if played.len() == 0 {
        assert(number_tokens(played_text(input@)) =~= Set::<Seq<char>>::empty());
        return Err(ParseError::NoPlayedNumbers);
    }
    assert(token_views(played@).to_set().contains(token_views(played@)[0]));
    Ok(ScratchCardGame::from_numbers(winning, played))
}

} // verus!
