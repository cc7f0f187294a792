//! The matching engine: correction and bucketed candidates over a vocabulary.
use vstd::prelude::*;
use crate::automaton::{build_acceptor, classify, AutomatonFactory, MAX_AUTOMATON_DISTANCE};
use crate::distance::{chars_of, edit_distance, min_nat, osa_distance, reports};
use crate::frequency::{strings_view, WordFrequency};
use crate::text::{
    ci_equal, float_syntax, is_float_literal, is_nan_word, is_punctuation, normalize, normalized,
    punctuation,
};

verus! {

/// Whether a raw token is checked at all: single punctuation marks, tokens longer
/// than any word within `max_distance`, and numbers (but `nan`) are not.
pub open spec fn should_consider(w: Seq<char>, longest: nat, max_distance: nat) -> bool {
    if w.len() == 1 && is_punctuation(w[0]) {
        false
    } else if w.len() > longest + max_distance {
        false
    } else if ci_equal(w, seq!['n', 'a', 'n']) {
        true
    } else {
        !float_syntax(w)
    }
}

/// `words[k]` is the first word of `words` at the least distance from `q`,
/// and that distance is within `max_distance`.
pub open spec fn first_best(q: Seq<char>, words: Seq<Seq<char>>, max_distance: nat, k: int) -> bool {
    &&& 0 <= k < words.len()
    &&& osa_distance(q, words[k]) <= max_distance
    &&& forall|i: int|
        0 <= i < words.len() && osa_distance(q, #[trigger] words[i]) <= max_distance
            ==> osa_distance(q, words[k]) <= osa_distance(q, words[i])
    &&& forall|i: int| 0 <= i < k ==> osa_distance(q, #[trigger] words[i]) > osa_distance(q, words[k])
}

/// The words of `words`, in order, at exactly distance `d` from `q`.
pub open spec fn at_distance(q: Seq<char>, words: Seq<Seq<char>>, d: nat) -> Seq<Seq<char>>
    decreases words.len(),
{
    if words.len() == 0 {
        Seq::empty()
    } else {
        let rest = at_distance(q, words.drop_last(), d);
        if osa_distance(q, words.last()) == d {
            rest.push(words.last())
        } else {
            rest
        }
    }
}

/// Bucket `k` of the candidates of `q`: the words at distance `k`, when `k` is
/// within the acceptor's bound `max_distance`.
pub open spec fn bucket(q: Seq<char>, words: Seq<Seq<char>>, k: nat, max_distance: nat) -> Seq<
    Seq<char>,
> {
    if k <= max_distance {
        at_distance(q, words, k)
    } else {
        Seq::empty()
    }
}

pub open spec fn buckets_view(b: Seq<Vec<String>>) -> Seq<Seq<Seq<char>>> {
    b.map_values(|v: Vec<String>| strings_view(v@))
}

pub open spec fn opt_view(r: Option<String>) -> Option<Seq<char>> {
    match r {
        Some(s) => Some(s@),
        None => None,
    }
}

/// The token `nan`, in any case, is considered whenever its length passes the
/// length filter, although it reads as a number.
pub proof fn law_nan_considered(w: Seq<char>, longest: nat, max_distance: nat)
    requires
        ci_equal(w, seq!['n', 'a', 'n']),
        3 <= longest + max_distance,
    ensures
        should_consider(w, longest, max_distance),
{
}

/// Any other floating-point literal is never considered, whatever the vocabulary.
pub proof fn law_numbers_not_considered(w: Seq<char>, longest: nat, max_distance: nat)
    requires
        float_syntax(w),
        !ci_equal(w, seq!['n', 'a', 'n']),
    ensures
        !should_consider(w, longest, max_distance),
{
}

proof fn lemma_at_distance_members(q: Seq<char>, words: Seq<Seq<char>>, d: nat, w: Seq<char>)
    ensures
        at_distance(q, words, d).contains(w) <==> words.contains(w) && osa_distance(q, w) == d,
    decreases words.len(),
{
    if words.len() > 0 {
        let rest = words.drop_last();
        lemma_at_distance_members(q, rest, d, w);
        assert(words =~= rest.push(words.last()));
        let sub = at_distance(q, rest, d);
        if words.contains(w) && !rest.contains(w) {
            let i = choose|i: int| 0 <= i < words.len() && words[i] == w;
            if i < rest.len() {
                assert(rest[i] == w);
            }
        }
        if rest.contains(w) {
            let i = choose|i: int| 0 <= i < rest.len() && rest[i] == w;
            assert(words[i] == w);
        }
        if osa_distance(q, words.last()) == d {
            assert(sub.push(words.last())[sub.len() as int] == words.last());
            if sub.push(words.last()).contains(w) && !sub.contains(w) {
                let i = choose|i: int| 0 <= i < sub.len() + 1 && sub.push(words.last())[i] == w;
                if i < sub.len() {
                    assert(sub[i] == w);
                }
            }
            if sub.contains(w) {
                let i = choose|i: int| 0 <= i < sub.len() && sub[i] == w;
                assert(sub.push(words.last())[i] == w);
            }
        }
    }
}

/// Bucket `k` of the candidates holds only words at distance exactly `k`, and
/// every word within `distance` lies in the bucket of its distance, as long as
/// `distance` does not exceed the acceptor's bound.
pub proof fn law_candidate_buckets(
    q: Seq<char>,
    words: Seq<Seq<char>>,
    distance: nat,
    max_distance: nat,
)
    requires
        distance <= max_distance,
    ensures
        forall|k: nat, w: Seq<char>|
            k <= distance && #[trigger] bucket(q, words, k, max_distance).contains(w)
                ==> words.contains(w) && osa_distance(q, w) == k,
        forall|w: Seq<char>|
            words.contains(w) && osa_distance(q, w) <= distance ==> #[trigger] bucket(
                q,
                words,
                osa_distance(q, w),
                max_distance,
            ).contains(w),
{
    assert forall|k: nat, w: Seq<char>|
        k <= distance && #[trigger] bucket(q, words, k, max_distance).contains(w) implies words.contains(
        w,
    ) && osa_distance(q, w) == k by {
        lemma_at_distance_members(q, words, k, w);
    }
    assert forall|w: Seq<char>| words.contains(w) && osa_distance(q, w) <= distance implies #[trigger] bucket(
        q,
        words,
        osa_distance(q, w),
        max_distance,
    ).contains(w) by {
        lemma_at_distance_members(q, words, osa_distance(q, w), w);
    }
}

/// A string is at distance zero only from itself.
proof fn lemma_osa_zero(a: Seq<char>, b: Seq<char>)
    requires
        osa_distance(a, b) == 0,
    ensures
        a == b,
    decreases a.len() + b.len(),
{
    if a.len() > 0 && b.len() > 0 {
        lemma_osa_zero(a.drop_last(), b.drop_last());
        assert(a =~= a.drop_last().push(a.last()));
        assert(b =~= b.drop_last().push(b.last()));
    } else {
        assert(a =~= b);
    }
}

/// A spelling corrector over a fixed vocabulary.
pub struct Speller {
    distance: u8,
    case_sensitive: bool,
    automaton: AutomatonFactory,
    word_frequency: WordFrequency,
}

impl Speller {
    pub closed spec fn max_distance(&self) -> nat {
        self.distance as nat
    }

    pub closed spec fn is_case_sensitive(&self) -> bool {
        self.case_sensitive
    }

    pub closed spec fn vocabulary(&self) -> WordFrequency {
        self.word_frequency
    }

    pub open spec fn wf(&self) -> bool {
        &&& self.vocabulary().wf()
        &&& self.vocabulary().is_case_sensitive() == self.is_case_sensitive()
        &&& self.max_distance() <= MAX_AUTOMATON_DISTANCE
        &&& self.inner_wf()
    }

    pub closed spec fn inner_wf(&self) -> bool {
        self.automaton.bound() == self.distance
    }

    /// A speller over `word_frequency`, matching within `distance`.
    pub fn new(distance: u8, automaton: AutomatonFactory, word_frequency: WordFrequency) -> (r:
        Speller)
        requires
            word_frequency.wf(),
            distance <= MAX_AUTOMATON_DISTANCE,
            automaton.bound() == distance,
        ensures
            r.wf(),
            r.max_distance() == distance,
            r.is_case_sensitive() == word_frequency.is_case_sensitive(),
            r.vocabulary() == word_frequency,
    {
        let case_sensitive = word_frequency.case_sensitive();
        Speller { distance, case_sensitive, automaton, word_frequency }
    }

    /// Whether the raw token `word` is worth checking (see `should_consider`).
    pub fn should_check(&self, word: &str) -> (r: bool)
        requires
            self.wf(),
        ensures
            r == should_consider(word@, self.vocabulary().longest(), self.max_distance()),
    {
        let chars = chars_of(word);
        let len = chars.len();
        if len == 1 && punctuation(chars[0]) {
            return false;
        }
        let longest = self.word_frequency.longest_word();
        if len > longest && len - longest > self.distance as usize {
            return false;
        }
        if is_nan_word(&chars) {
            return true;
        }
        // Numbers are not spell-checked.
        !is_float_literal(&chars)
    }

    /// The normalized `word` if it is known; otherwise the first word of the
    /// count-ordered list at the least distance within the bound.
    ///
    /// Among words at equal distance the one met first in ascending-count order
    /// wins, that is the least frequent one.
    pub fn correction(&self, word: &str) -> (r: Option<String>)
        requires
            self.wf(),
        ensures
            ({
                let v = self.vocabulary();
                let q = normalized(word@, self.is_case_sensitive());
                let words = v.ordered();
                if !should_consider(word@, v.longest(), self.max_distance()) {
                    r is None
                } else if v.counts().contains_key(q) {
                    opt_view(r) == Some(q)
                } else {
                    match opt_view(r) {
                        None => forall|i: int|
                            0 <= i < words.len() ==> osa_distance(q, #[trigger] words[i])
                                > self.max_distance(),
                        Some(w) => exists|k: int|
                            first_best(q, words, self.max_distance(), k) && words[k] == w,
                    }
                }
            }),
    {
        if !self.should_check(word) {
            return None;
        }
        let key = normalize(word, self.case_sensitive);
        if self.word_frequency.contains(key.as_str()) {
            return Some(key);
        }
        let ghost q = key@;
        let ghost words = self.word_frequency.ordered();
        let ghost max = self.max_distance();
        let acceptor = build_acceptor(&self.automaton, key);
        let n = self.word_frequency.list_len();
        let mut best: Option<(usize, u8)> = None;
        let mut i: usize = 0;
        while i < n
            invariant
                self.wf(),
                n == words.len(),
                words == self.word_frequency.ordered(),
                !self.word_frequency.counts().contains_key(q),
                q == normalized(word@, self.is_case_sensitive()),
                should_consider(word@, self.vocabulary().longest(), self.max_distance()),
                acceptor.query() == q,
                acceptor.bound() == max,
                max == self.max_distance(),
                i <= n,
                forall|j: int|
                    0 <= j < i && osa_distance(q, #[trigger] words[j]) <= max ==> osa_distance(
                        q,
                        words[j],
                    ) >= 2,
                match best {
                    None => forall|j: int|
                        0 <= j < i ==> osa_distance(q, #[trigger] words[j]) > max,
                    Some((k, d)) => {
                        &&& k < i
                        &&& d == osa_distance(q, words[k as int])
                        &&& d <= max
                        &&& forall|j: int|
                            0 <= j < i && osa_distance(q, #[trigger] words[j]) <= max ==> d
                                <= osa_distance(q, words[j])
                        &&& forall|j: int| 0 <= j < k ==> osa_distance(q, #[trigger] words[j]) > d
                    },
                },
            decreases n - i,
        {
            let item = self.word_frequency.word_at(i);
            match classify(&acceptor, item.as_str()) {
                Some(d) => {
                    if d <= 1 {
                        proof {
                            assert forall|j: int|
                                0 <= j < words.len() && osa_distance(q, #[trigger] words[j])
                                    <= max implies osa_distance(q, words[i as int])
                                <= osa_distance(q, words[j]) by {
                                if osa_distance(q, words[j]) == 0 {
                                    lemma_osa_zero(q, words[j]);
                                    assert(self.word_frequency.ordered().contains(words[j]));
                                }
                            }
                            assert(first_best(q, words, max, i as int));
                            assert(words[i as int] == item@);
                        }
                        let found = item.clone();
                        proof {
                            assert(opt_view(Some(found)) == Some(words[i as int]));
                            assert(exists|k: int|
                                first_best(q, words, max, k) && words[k] == words[i as int]);
                        }
                        return Some(found);
                    }
                    let better = match best {
                        None => true,
                        Some((_, bd)) => d < bd,
                    };
                    if better {
                        best = Some((i, d));
                    }
                },
                None => {},
            }
            i += 1;
        }
        match best {
            None => None,
            Some((k, d)) => {
                let w = self.word_frequency.word_at(k);
                proof {
                    assert(first_best(q, words, max, k as int));
                }
                Some(w.clone())
            },
        }
    }

    /// Every word within `distance` (and within the speller's own bound) of the
    /// normalized `word`, bucketed by exact distance, each bucket in count order;
    /// `None` when there is none. A known word is alone in bucket 0.
    pub fn candidates(&self, word: &str, distance: u8) -> (r: Option<Vec<Vec<String>>>)
        requires
            self.wf(),
        ensures
            ({
                let v = self.vocabulary();
                let q = normalized(word@, self.is_case_sensitive());
                let words = v.ordered();
                let max = self.max_distance();
                if !should_consider(word@, v.longest(), max) {
                    r is None
                } else if v.counts().contains_key(q) {
                    &&& r is Some
                    &&& buckets_view(r->0@).len() == distance + 1
                    &&& buckets_view(r->0@)[0] == seq![q]
                    &&& forall|k: int|
                        1 <= k <= distance ==> #[trigger] buckets_view(r->0@)[k] == Seq::<
                            Seq<char>,
                        >::empty()
                } else {
                    &&& (r is None <==> forall|i: int|
                        0 <= i < words.len() ==> osa_distance(q, #[trigger] words[i]) > min_nat(
                            distance as nat,
                            max,
                        ))
                    &&& r is Some ==> buckets_view(r->0@).len() == distance + 1 && forall|k: int|
                        0 <= k <= distance ==> #[trigger] buckets_view(r->0@)[k] == bucket(
                            q,
                            words,
                            k as nat,
                            max,
                        )
                }
            }),
    {
        if !self.should_check(word) {
            return None;
        }
        let key = normalize(word, self.case_sensitive);
        let ghost q = key@;
        let ghost words = self.word_frequency.ordered();
        let ghost max = self.max_distance();
        let mut matches: Vec<Vec<String>> = Vec::new();
        let mut k: usize = 0;
        while k <= distance as usize
            invariant
                k <= distance + 1,
                matches.len() == k,
                forall|b: int| 0 <= b < k ==> (#[trigger] matches@[b])@.len() == 0,
            decreases distance + 1 - k,
        {
            matches.push(Vec::new());
            k += 1;
        }
        if self.word_frequency.contains(key.as_str()) {
            matches[0].push(key);
            proof {
                let bv = buckets_view(matches@);
                assert(bv[0] =~= seq![q]);
                assert forall|b: int| 1 <= b <= distance implies #[trigger] bv[b] == Seq::<
                    Seq<char>,
                >::empty() by {
                    assert(bv[b] =~= Seq::<Seq<char>>::empty());
                }
            }
            return Some(matches);
        }
        let acceptor = build_acceptor(&self.automaton, key);
        let n = self.word_frequency.list_len();
        let mut found = false;
        let mut i: usize = 0;
        proof {
            assert forall|b: int| 0 <= b <= distance implies #[trigger] buckets_view(matches@)[b]
                == bucket(q, words.subrange(0, 0), b as nat, max) by {
                assert(buckets_view(matches@)[b] =~= Seq::<Seq<char>>::empty());
            }
        }
        while i < n
            invariant
                self.wf(),
                n == words.len(),
                words == self.word_frequency.ordered(),
                acceptor.query() == q,
                acceptor.bound() == max,
                max == self.max_distance(),
                i <= n,
                matches.len() == distance + 1,
                forall|b: int|
                    0 <= b <= distance ==> #[trigger] buckets_view(matches@)[b] == bucket(
                        q,
                        words.subrange(0, i as int),
                        b as nat,
                        max,
                    ),
                found <==> exists|j: int|
                    0 <= j < i && osa_distance(q, #[trigger] words[j]) <= min_nat(
                        distance as nat,
                        max,
                    ),
            decreases n - i,
        {
            let item = self.word_frequency.word_at(i);
            let ghost before = buckets_view(matches@);
            let ghost prefix = words.subrange(0, i as int);
            let ghost next = words.subrange(0, i + 1);
            proof {
                assert(next.drop_last() =~= prefix);
                assert(next.last() == words[i as int]);
            }
            match classify(&acceptor, item.as_str()) {
                Some(d) => {
                    if d <= distance {
                        matches[d as usize].push(item.clone());
                        found = true;
                    }
                },
                None => {},
            }
            proof {
                assert forall|b: int| 0 <= b <= distance implies #[trigger] buckets_view(
                    matches@,
                )[b] == bucket(q, next, b as nat, max) by {
                    if osa_distance(q, words[i as int]) == b && b <= max {
                        assert(buckets_view(matches@)[b] =~= before[b].push(words[i as int]));
                    } else {
                        assert(buckets_view(matches@)[b] =~= before[b]);
                    }
                }
            }
            i += 1;
        }
        proof {
            assert(words.subrange(0, n as int) =~= words);
        }
        if found {
            Some(matches)
        } else {
            None
        }
    }

    /// The distance between the normalized `word1` and `word2` when it is within
    /// the speller's bound, else `None` (also `None` for strings too long to index).
    pub fn edit_distance(&self, word1: &str, word2: &str) -> (r: Option<usize>)
        requires
            self.wf(),
        ensures
            ({
                let a = normalized(word1@, self.is_case_sensitive());
                let b = normalized(word2@, self.is_case_sensitive());
                if a.len() < usize::MAX && b.len() < usize::MAX {
                    reports(r, a, b, self.max_distance() as usize)
                } else {
                    r is None
                }
            }),
    {
        let a = normalize(word1, self.case_sensitive);
        let b = normalize(word2, self.case_sensitive);
        let la = chars_of(a.as_str()).len();
        let lb = chars_of(b.as_str()).len();
        if la == usize::MAX || lb == usize::MAX {
            return None;
        }
        edit_distance(a.as_str(), b.as_str(), self.distance as usize)
    }
}

} // verus!
