//! The split-point search over three n-gram score tables.
use vstd::hash_map::StringHashMap;
use vstd::prelude::*;

use crate::text::{chars_of, cut_at, lemma_encode_char, lemma_offset_split, CharString};

verus! {

/// Scores are fixed-point numbers: `SCORE_ONE` stands for the real number 1.
pub const SCORE_ONE: i64 = 1_000_000_000;

/// A mapping from lowercased substrings to their scores.
pub struct ScoreTable {
    map: StringHashMap<i64>,
}

impl View for ScoreTable {
    type V = Map<Seq<char>, i64>;

    closed spec fn view(&self) -> Map<Seq<char>, i64> {
        self.map@
    }
}

/// The score of `key` in `m`, if it has one.
pub open spec fn lookup(m: Map<Seq<char>, i64>, key: Seq<char>) -> Option<i64> {
    if m.contains_key(key) {
        Some(m[key])
    } else {
        None
    }
}

impl ScoreTable {
    /// An empty table.
    pub fn new() -> (r: ScoreTable)
        ensures
            r@ == Map::<Seq<char>, i64>::empty(),
    {
        ScoreTable { map: StringHashMap::new() }
    }

    /// Gives `key` the score `score`, replacing any score it had.
    pub fn insert(&mut self, key: String, score: i64)
        ensures
            final(self)@ == old(self)@.insert(key@, score),
    {
        self.map.insert(key, score);
    }

    /// The score of `key`, if the table has one.
    pub fn get(&self, key: &str) -> (r: Option<i64>)
        ensures
            r == lookup(self@, key@),
    {
        match self.map.get(key) {
            Some(v) => Some(*v),
            None => None,
        }
    }
}

/// Whether `w` ends with `tail`.
pub open spec fn ends_with(w: Seq<char>, tail: Seq<char>) -> bool {
    tail.len() <= w.len() && w.subrange(w.len() - tail.len(), w.len() as int) == tail
}

/// Whether `w` ends with a linking element: "ts", "gs", "ks", "hls" or "ns".
pub open spec fn has_linking_s(w: Seq<char>) -> bool {
    ||| ends_with(w, seq!['t', 's'])
    ||| ends_with(w, seq!['g', 's'])
    ||| ends_with(w, seq!['k', 's'])
    ||| ends_with(w, seq!['h', 'l', 's'])
    ||| ends_with(w, seq!['n', 's'])
}

/// `w` without the final "s" of a linking element, or `w` itself.
pub open spec fn strip_linking_s(w: Seq<char>) -> Seq<char> {
    if has_linking_s(w) {
        w.drop_last()
    } else {
        w
    }
}

/// Drops the final "s" of a linking element ("ts", "gs", "ks", "hls", "ns")
/// from `word`; any other word comes back unchanged.
pub fn cut_off_fugen_s<'b>(word: &'b str) -> (r: &'b str)
    ensures
        r@ == strip_linking_s(word@),
{
    let v = chars_of(word);
    let n = v.len();
    let linked = n >= 2 && v[n - 1] == 's' && (v[n - 2] == 't' || v[n - 2] == 'g' || v[n - 2]
        == 'k' || v[n - 2] == 'n' || (n >= 3 && v[n - 3] == 'h' && v[n - 2] == 'l'));
    proof {
        let w = word@;
        if n >= 2 {
            let t2 = w.subrange(n - 2, n as int);
            assert(t2 =~= seq![w[n - 2], w[n - 1]]);
            if n >= 3 {
                let t3 = w.subrange(n - 3, n as int);
                assert(t3 =~= seq![w[n - 3], w[n - 2], w[n - 1]]);
            }
        }
        assert(linked == has_linking_s(w)) by {
            if has_linking_s(w) {
                if ends_with(w, seq!['h', 'l', 's']) {
                    let t3 = w.subrange(n - 3, n as int);
                    assert(t3[0] == seq!['h', 'l', 's'][0]);
                    assert(t3[1] == seq!['h', 'l', 's'][1]);
                    assert(t3[2] == seq!['h', 'l', 's'][2]);
                } else {
                    let t2 = w.subrange(n - 2, n as int);
                    assert(t2[0] == w[n - 2]);
                    assert(t2[1] == w[n - 1]);
                }
            }
        }
    }
    if linked {
        proof {
            lemma_offset_split(word@, n - 1);
            assert(word@.skip(n - 1) =~= seq!['s']);
            lemma_encode_char('s');
        }
        let mid = word.as_bytes().len() - 1;
        cut_at(word, Ghost(n - 1), mid).0
    } else {
        word
    }
}

/// The score of `o`, or `default` where the table had none.
pub open spec fn score_or(o: Option<i64>, default: int) -> int {
    match o {
        Some(v) => v as int,
        None => default,
    }
}

/// The least infix score among the substrings of `t` that start at `n` and end
/// at a position from `n + 3` up to `k`; `None` where none of them has a score.
pub open spec fn infix_min(infix: Map<Seq<char>, i64>, t: Seq<char>, n: int, k: int) -> Option<int>
    decreases k - n,
{
    if k < n + 3 {
        None
    } else {
        let rest = infix_min(infix, t, n, k - 1);
        match lookup(infix, t.subrange(n, k)) {
            None => rest,
            Some(v) => match rest {
                Some(m) if m <= v => Some(m),
                _ => Some(v as int),
            },
        }
    }
}

/// The compound splitter: three score tables learned from a corpus.
pub struct CharSplitter {
    /// How plausible a substring is as the start of a word.
    pub prefix: ScoreTable,
    /// How plausible a substring is as an inner fragment of a word.
    pub infix: ScoreTable,
    /// How plausible a substring is as the end of a word.
    pub suffix: ScoreTable,
}

impl CharSplitter {
    /// The key under which the part of `t` before `n` is looked up.
    pub open spec fn left_key(t: Seq<char>, n: int) -> Seq<char> {
        if n > 3 {
            strip_linking_s(t.take(n))
        } else {
            t.take(n)
        }
    }

    /// The key under which the part of `t` from `n` on is looked up.
    pub open spec fn right_key(t: Seq<char>, n: int) -> Seq<char> {
        if t.len() - n > 3 {
            strip_linking_s(t.skip(n))
        } else {
            t.skip(n)
        }
    }

    /// The score of the left part: its suffix score, or minus one.
    pub open spec fn left_score(&self, t: Seq<char>, n: int) -> int {
        score_or(lookup(self.suffix@, Self::left_key(t, n)), -SCORE_ONE)
    }

    /// The score of the right part: its prefix score, or minus one.
    pub open spec fn right_score(&self, t: Seq<char>, n: int) -> int {
        score_or(lookup(self.prefix@, Self::right_key(t, n)), -SCORE_ONE)
    }

    /// The infix score at `n`: the least infix score of the substrings that
    /// start at `n` with three or more characters, or zero where none has a
    /// score or the least exceeds one.
    pub open spec fn in_score(&self, t: Seq<char>, n: int) -> int {
        match infix_min(self.infix@, t, n, t.len() as int) {
            Some(m) if m <= SCORE_ONE => m,
            _ => 0,
        }
    }

    /// The score of the boundary at character position `n` of `t`.
    pub open spec fn boundary_score(&self, t: Seq<char>, n: int) -> int {
        self.right_score(t, n) - self.in_score(t, n) + self.left_score(t, n)
    }

    /// Whether `n` is a candidate boundary of `t`: both parts and the shortest
    /// infix after it hold three characters or more.
    pub open spec fn is_candidate(t: Seq<char>, n: int) -> bool {
        3 <= n && n + 2 < t.len()
    }

    /// Whether `n` is the winning boundary of `t`: no candidate scores higher,
    /// and every candidate to its left scores lower.
    pub open spec fn is_best(&self, t: Seq<char>, n: int) -> bool {
        &&& Self::is_candidate(t, n)
        &&& forall|m: int| #[trigger]
            Self::is_candidate(t, m) ==> self.boundary_score(t, m) <= self.boundary_score(t, n)
        &&& forall|m: int|
            3 <= m < n ==> #[trigger] self.boundary_score(t, m) < self.boundary_score(t, n)
    }

    /// A splitter over the given tables.
    pub fn new(prefix: ScoreTable, infix: ScoreTable, suffix: ScoreTable) -> (r: CharSplitter)
        ensures
            r.prefix@ == prefix@,
            r.infix@ == infix@,
            r.suffix@ == suffix@,
    {
        CharSplitter { prefix, infix, suffix }
    }

    /// The infix score at position `n` of `text`.
    pub fn compute_in_slice_prob(&self, text: &CharString, n: usize) -> (r: i64)
        requires
            n <= text@.len(),
        ensures
            r == self.in_score(text@, n as int),
    {
        let len = text.len();
        let mut best: Option<i64> = None;
        let mut k: usize = n;
        while k < len
            invariant
                len == text@.len(),
                n <= k <= len,
                match best {
                    Some(b) => infix_min(self.infix@, text@, n as int, k as int) == Some(b as int),
                    None => infix_min(self.infix@, text@, n as int, k as int) is None,
                },
            decreases len - k,
        {
            k = k + 1;
            if k - n >= 3 {
                let in_slice = text.substr(n, k);
                match self.infix.get(in_slice) {
                    Some(v) => {
                        match best {
                            Some(b) if b <= v => {},
                            _ => {
                                best = Some(v);
                            },
                        }
                    },
                    None => {},
                }
            }
        }
        match best {
            Some(b) if b <= SCORE_ONE => b,
            _ => 0,
        }
    }
}

impl CharSplitter {
    /// The score of the boundary at position `n` of `text`.
    pub fn boundary_score_at(&self, text: &CharString, n: usize) -> (r: i128)
        requires
            n <= text@.len(),
        ensures
            r == self.boundary_score(text@, n as int),
    {
        let len = text.len();
        let mut left_slice = text.prefix(n);
        if n > 3 {
            left_slice = cut_off_fugen_s(left_slice);
        }
        let left_slice_prob = match self.suffix.get(left_slice) {
            Some(v) => v,
            None => -SCORE_ONE,
        };
        let mut right_slice = text.suffix(n);
        if len - n > 3 {
            right_slice = cut_off_fugen_s(right_slice);
        }
        let right_slice_prob = match self.prefix.get(right_slice) {
            Some(v) => v,
            None => -SCORE_ONE,
        };
        let in_slice_prob = self.compute_in_slice_prob(text, n);
        right_slice_prob as i128 - in_slice_prob as i128 + left_slice_prob as i128
    }

    /// The winning boundary of `text`: the leftmost of the highest-scoring
    /// candidates, or `None` where `text` is too short to hold a candidate.
    pub fn best_split_position(&self, text: &CharString) -> (r: Option<usize>)
        ensures
            r is None <==> text@.len() < 6,
            r matches Some(n) ==> self.is_best(text@, n as int),
    {
        let len = text.len();
        let mut best: Option<(i128, usize)> = None;
        let mut n: usize = 3;
        while len > 2 && n < len - 2
            invariant
                len == text@.len(),
                3 <= n,
                n <= len || len < 6,
                best is None <==> n == 3,
                best matches Some(p) ==> {
                    &&& Self::is_candidate(text@, p.1 as int)
                    &&& p.1 < n
                    &&& p.0 == self.boundary_score(text@, p.1 as int)
                    &&& forall|m: int|
                        3 <= m < n ==> #[trigger] self.boundary_score(text@, m) <= p.0
                    &&& forall|m: int|
                        3 <= m < p.1 ==> #[trigger] self.boundary_score(text@, m) < p.0
                },
            decreases len - n,
        {
            let score = self.boundary_score_at(text, n);
            match best {
                Some(p) if score <= p.0 => {},
                _ => {
                    best = Some((score, n));
                },
            }
            n = n + 1;
        }
        match best {
            Some(p) => {
                assert forall|m: int| #[trigger] Self::is_candidate(text@, m) implies self.boundary_score(
                    text@,
                    m,
                ) <= self.boundary_score(text@, p.1 as int) by {
                    assert(3 <= m < n);
                }
                Some(p.1)
            },
            None => None,
        }
    }
}

/// The lowercase form of a text, as the standard library computes it.
pub uninterp spec fn lower_of(s: Seq<char>) -> Seq<char>;

/// Relies on `str::to_lowercase`: its result depends on the characters of
/// `s` alone.
#[verifier::external_body]
fn lowercase(s: &str) -> (r: String)
    ensures
        r@ == lower_of(s@),
{
    s.to_lowercase()
}

/// The position of the last hyphen in `v`, if it holds one.
fn last_hyphen(v: &Vec<char>) -> (r: Option<usize>)
    ensures
        match r {
            Some(h) => h < v@.len() && v@[h as int] == '-' && !v@.skip(h + 1).contains('-'),
            None => !v@.contains('-'),
        },
{
    let mut i: usize = v.len();
    while i > 0
        invariant
            i <= v@.len(),
            forall|j: int| i <= j < v@.len() ==> v@[j] != '-',
        decreases i,
    {
        i = i - 1;
        if v[i] == '-' {
            proof {
                let rest = v@.skip(i + 1);
                assert forall|j: int| 0 <= j < rest.len() implies #[trigger] rest[j] != '-' by {
                    assert(rest[j] == v@[i + 1 + j]);
                }
            }
            return Some(i);
        }
    }
    None
}

impl CharSplitter {
    /// Whether `l` and `r` are the split of `word`: at its last hyphen where it
    /// holds one; else at the winning boundary of its lowercase form, where that
    /// form has as many characters as `word` and at least six; else `word` is
    /// not split and both parts are the whole word.
    pub open spec fn splits_as(&self, word: Seq<char>, l: Seq<char>, r: Seq<char>) -> bool {
        if word.contains('-') {
            l + seq!['-'] + r == word && !r.contains('-')
        } else if lower_of(word).len() == word.len() && word.len() >= 6 {
            l + r == word && self.is_best(lower_of(word), l.len() as int)
        } else {
            l == word && r == word
        }
    }

    /// The character positions where the left part of `word` ends and the
    /// right part starts; `(length, 0)` where `word` is not split.
    pub fn find_split_indices(&self, word: &str) -> (r: (usize, usize))
        ensures
            word@.contains('-') ==> {
                &&& r.1 == r.0 + 1
                &&& r.1 <= word@.len()
                &&& word@[r.0 as int] == '-'
                &&& !word@.skip(r.1 as int).contains('-')
            },
            !word@.contains('-') ==> if lower_of(word@).len() == word@.len() && word@.len() >= 6 {
                r.0 == r.1 && self.is_best(lower_of(word@), r.0 as int)
            } else {
                r.0 == word@.len() && r.1 == 0
            },
    {
        let chars = chars_of(word);
        let len = chars.len();
        if let Some(i) = last_hyphen(&chars) {
            return (i, i + 1);
        }
        let lowered = lowercase(word);
        let char_string = CharString::new(lowered.as_str());
        if char_string.len() != len {
            return (len, 0);
        }
        match self.best_split_position(&char_string) {
            Some(n) => (n, n),
            None => (len, 0),
        }
    }

    /// Splits the compound `word` into a left and a right part.
    pub fn split<'a>(&self, word: &'a str) -> (r: (&'a str, &'a str))
        ensures
            self.splits_as(word@, r.0@, r.1@),
    {
        let (left, right) = self.find_split_indices(word);
        let char_string = CharString::new(word);
        let r = (char_string.prefix(left), char_string.suffix(right));
        proof {
            let w = word@;
            if w.contains('-') {
                assert(r.0@ + seq!['-'] + r.1@ =~= w);
            } else if lower_of(w).len() == w.len() && w.len() >= 6 {
                assert(r.0@ + r.1@ =~= w);
            } else {
                assert(r.0@ =~= w);
                assert(r.1@ =~= w);
            }
        }
        r
    }
}

/// At most one position of a text is its winning boundary.
pub proof fn lemma_best_is_unique(sp: &CharSplitter, t: Seq<char>, a: int, b: int)
    requires
        sp.is_best(t, a),
        sp.is_best(t, b),
    ensures
        a == b,
{
    if a < b {
        assert(sp.boundary_score(t, a) < sp.boundary_score(t, b));
        assert(CharSplitter::is_candidate(t, a));
    } else if b < a {
        assert(sp.boundary_score(t, b) < sp.boundary_score(t, a));
        assert(CharSplitter::is_candidate(t, b));
    }
}

/// A word has one split only.
pub proof fn lemma_splits_as_unique(
    sp: &CharSplitter,
    word: Seq<char>,
    l1: Seq<char>,
    r1: Seq<char>,
    l2: Seq<char>,
    r2: Seq<char>,
)
    requires
        sp.splits_as(word, l1, r1),
        sp.splits_as(word, l2, r2),
    ensures
        l1 == l2,
        r1 == r2,
{
    if word.contains('-') {
        let h1 = l1.len() as int;
        let h2 = l2.len() as int;
        assert(word[h1] == (l1 + seq!['-'] + r1)[h1]);
        assert(word[h2] == (l2 + seq!['-'] + r2)[h2]);
        if h1 < h2 {
            assert(r1[h2 - h1 - 1] == word[h2]);
        } else if h2 < h1 {
            assert(r2[h1 - h2 - 1] == word[h1]);
        }
        assert(l1 =~= word.take(h1));
        assert(l2 =~= word.take(h2));
        assert(r1 =~= word.skip(h1 + 1));
        assert(r2 =~= word.skip(h2 + 1));
    } else if lower_of(word).len() == word.len() && word.len() >= 6 {
        lemma_best_is_unique(sp, lower_of(word), l1.len() as int, l2.len() as int);
        assert(l1 =~= word.take(l1.len() as int));
        assert(l2 =~= word.take(l2.len() as int));
        assert(r1 =~= word.skip(l1.len() as int));
        assert(r2 =~= word.skip(l2.len() as int));
    }
}

/// A word that holds a hyphen is split at its last hyphen, which belongs to
/// neither part.
pub proof fn lemma_hyphen_split(sp: &CharSplitter, word: Seq<char>, l: Seq<char>, r: Seq<char>)
    requires
        sp.splits_as(word, l, r),
        word.contains('-'),
    ensures
        l.len() < word.len(),
        word[l.len() as int] == '-',
        l == word.take(l.len() as int),
        r == word.skip(l.len() as int + 1),
        forall|j: int| l.len() < j < word.len() ==> word[j] != '-',
{
    let h = l.len() as int;
    assert(word[h] == (l + seq!['-'] + r)[h]);
    assert(l =~= word.take(h));
    assert(r =~= word.skip(h + 1));
    assert forall|j: int| h < j < word.len() implies word[j] != '-' by {
        assert(word[j] == r[j - h - 1]);
    }
}

/// A word of fewer than six characters without a hyphen is not split: both
/// parts are the whole word.
pub proof fn lemma_short_word_unsplit(
    sp: &CharSplitter,
    word: Seq<char>,
    l: Seq<char>,
    r: Seq<char>,
)
    requires
        sp.splits_as(word, l, r),
        !word.contains('-'),
        word.len() < 6,
    ensures
        l == word,
        r == word,
{
}

/// The parts put together, with the hyphen back in between where one was
/// consumed, give the word again, unless the word was left unsplit.
pub proof fn lemma_parts_rebuild_word(
    sp: &CharSplitter,
    word: Seq<char>,
    l: Seq<char>,
    r: Seq<char>,
)
    requires
        sp.splits_as(word, l, r),
    ensures
        word.contains('-') ==> l + seq!['-'] + r == word,
        !word.contains('-') ==> l + r == word || (l == word && r == word),
{
}

/// Two words with the same lowercase form are cut at the same position, and
/// each part keeps the characters of its own word, case and all.
pub proof fn lemma_case_blind_decision(
    sp: &CharSplitter,
    w1: Seq<char>,
    l1: Seq<char>,
    r1: Seq<char>,
    w2: Seq<char>,
    l2: Seq<char>,
    r2: Seq<char>,
)
    requires
        sp.splits_as(w1, l1, r1),
        sp.splits_as(w2, l2, r2),
        !w1.contains('-'),
        !w2.contains('-'),
        w1.len() == w2.len(),
        lower_of(w1) == lower_of(w2),
    ensures
        l1.len() == l2.len(),
        r1.len() == r2.len(),
        l1 == w1.take(l1.len() as int),
        r1 == w1.skip(w1.len() - r1.len()),
{
    if lower_of(w1).len() == w1.len() && w1.len() >= 6 {
        lemma_best_is_unique(sp, lower_of(w1), l1.len() as int, l2.len() as int);
        assert(l1 =~= w1.take(l1.len() as int));
        assert(r1 =~= w1.skip(w1.len() - r1.len()));
    } else {
        assert(w1.take(w1.len() as int) =~= w1);
        assert(w1.skip(0) =~= w1);
    }
}

/// Of two boundaries with equal scores, the winner is never the one on the
/// right.
pub proof fn lemma_ties_go_left(sp: &CharSplitter, t: Seq<char>, n: int, m: int)
    requires
        sp.is_best(t, n),
        CharSplitter::is_candidate(t, m),
        sp.boundary_score(t, m) == sp.boundary_score(t, n),
    ensures
        n <= m,
{
    if m < n {
        assert(sp.boundary_score(t, m) < sp.boundary_score(t, n));
    }
}

/// A left part longer than three characters that ends in "ts" is looked up
/// without its final "s"; one of exactly three characters is looked up as it
/// stands.
pub proof fn lemma_left_part_linking_s(t: Seq<char>, n: int)
    requires
        3 <= n <= t.len(),
        ends_with(t.take(n), seq!['t', 's']),
    ensures
        n > 3 ==> CharSplitter::left_key(t, n) == t.take(n - 1),
        n == 3 ==> CharSplitter::left_key(t, n) == t.take(3),
{
    assert(t.take(n).drop_last() =~= t.take(n - 1));
}

/// An empty infix table scores no substring.
proof fn lemma_infix_min_empty(infix: Map<Seq<char>, i64>, t: Seq<char>, n: int, k: int)
    requires
        infix == Map::<Seq<char>, i64>::empty(),
    ensures
        infix_min(infix, t, n, k) is None,
    decreases k - n,
{
    if k >= n + 3 {
        lemma_infix_min_empty(infix, t, n, k - 1);
    }
}

/// With three empty tables every candidate boundary scores minus two, so a
/// word of six characters or more is cut at its leftmost candidate, after
/// three characters.
pub proof fn lemma_empty_tables_cut_leftmost(sp: &CharSplitter, t: Seq<char>)
    requires
        sp.prefix@ == Map::<Seq<char>, i64>::empty(),
        sp.infix@ == Map::<Seq<char>, i64>::empty(),
        sp.suffix@ == Map::<Seq<char>, i64>::empty(),
        t.len() >= 6,
    ensures
        forall|m: int|
            CharSplitter::is_candidate(t, m) ==> #[trigger] sp.boundary_score(t, m) == -2
                * SCORE_ONE,
        sp.is_best(t, 3),
{
    assert forall|m: int| CharSplitter::is_candidate(t, m) implies #[trigger] sp.boundary_score(
        t,
        m,
    ) == -2 * SCORE_ONE by {
        lemma_infix_min_empty(sp.infix@, t, m, t.len() as int);
    }
}

} // verus!
