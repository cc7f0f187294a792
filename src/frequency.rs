//! The frequency-weighted vocabulary.
use vstd::prelude::*;
use vstd::hash_map::StringHashMap;
use crate::error::BuildError;
use crate::text::{normalize, normalized};
use vstd::string::StrSliceExecFns;

verus! {

broadcast use vstd::seq_lib::group_to_multiset_ensures;

/// `old + count`, held to the range of `i64`.
pub open spec fn accumulate(old: i64, count: i32) -> i64 {
    let s = old + count;
    if s > i64::MAX {
        i64::MAX
    } else if s < i64::MIN {
        i64::MIN
    } else {
        s as i64
    }
}

/// The counts after adding `count` for the (normalized) word `key`.
pub open spec fn added(m: Map<Seq<char>, i64>, key: Seq<char>, count: i32) -> Map<Seq<char>, i64> {
    if m.contains_key(key) {
        m.insert(key, accumulate(m[key], count))
    } else {
        m.insert(key, count as i64)
    }
}

/// The counts after adding every entry of `entries`, in order.
pub open spec fn ingested(
    m: Map<Seq<char>, i64>,
    entries: Seq<(Seq<char>, i32)>,
    case_sensitive: bool,
) -> Map<Seq<char>, i64>
    decreases entries.len(),
{
    if entries.len() == 0 {
        m
    } else {
        let last = entries.last();
        added(
            ingested(m, entries.drop_last(), case_sensitive),
            normalized(last.0, case_sensitive),
            last.1,
        )
    }
}

/// The plain view of a list of word/count entries.
pub open spec fn entries_view(entries: Seq<(String, i32)>) -> Seq<(Seq<char>, i32)> {
    entries.map_values(|e: (String, i32)| (e.0@, e.1))
}

pub open spec fn strings_view(v: Seq<String>) -> Seq<Seq<char>> {
    v.map_values(|s: String| s@)
}

/// Word counts, and the words ordered by ascending count.
pub struct WordFrequency {
    dictionary: StringHashMap<i64>,
    keys: Vec<String>,
    list: Vec<String>,
    unique_words: usize,
    case_sensitive: bool,
    longest_word: usize,
}

impl WordFrequency {
    /// Each normalized word and its accumulated count.
    pub closed spec fn counts(&self) -> Map<Seq<char>, i64> {
        self.dictionary@
    }

    /// The words by ascending count, as of the last ingestion.
    pub closed spec fn ordered(&self) -> Seq<Seq<char>> {
        strings_view(self.list@)
    }

    pub closed spec fn longest(&self) -> nat {
        self.longest_word as nat
    }

    pub closed spec fn word_count(&self) -> nat {
        self.unique_words as nat
    }

    pub closed spec fn is_case_sensitive(&self) -> bool {
        self.case_sensitive
    }

    pub closed spec fn keys_wf(&self) -> bool {
        &&& strings_view(self.keys@).no_duplicates()
        &&& forall|k: Seq<char>|
            self.dictionary@.contains_key(k) <==> strings_view(self.keys@).contains(k)
    }

    /// The ordered list is the dictionary's words sorted by count, and the
    /// derived statistics describe the dictionary.
    pub open spec fn wf(&self) -> bool {
        &&& forall|k: Seq<char>| #[trigger]
            self.counts().contains_key(k) <==> self.ordered().contains(k)
        &&& self.ordered().no_duplicates()
        &&& forall|i: int, j: int|
            0 <= i < j < self.ordered().len() ==> self.counts()[#[trigger] self.ordered()[i]]
                <= self.counts()[#[trigger] self.ordered()[j]]
        &&& forall|k: Seq<char>| #[trigger]
            self.counts().contains_key(k) ==> k.len() <= self.longest()
        &&& (self.longest() == 0 || exists|k: Seq<char>|
            #[trigger] self.counts().contains_key(k) && k.len() == self.longest())
        &&& self.word_count() == self.counts().dom().len()
        &&& self.counts().dom().finite()
        &&& self.keys_wf()
    }

    /// An empty vocabulary.
    pub fn new(case_sensitive: bool) -> (r: WordFrequency)
        ensures
            r.wf(),
            r.counts() == Map::<Seq<char>, i64>::empty(),
            r.ordered().len() == 0,
            r.is_case_sensitive() == case_sensitive,
            r.longest() == 0,
            r.word_count() == 0,
    {
        let r = WordFrequency {
            dictionary: StringHashMap::new(),
            keys: Vec::new(),
            list: Vec::new(),
            unique_words: 0,
            case_sensitive,
            longest_word: 0,
        };
        proof {
            assert(r.counts().dom() =~= Set::<Seq<char>>::empty());
            assert(strings_view(r.keys@) =~= Seq::<Seq<char>>::empty());
        }
        r
    }

    /// Whether `word` is a key, exactly as given.
    pub fn contains(&self, word: &str) -> (r: bool)
        ensures
            r == self.counts().contains_key(word@),
    {
        self.dictionary.contains_key(word)
    }

    /// The number of words in the ordered list.
    pub fn list_len(&self) -> (r: usize)
        ensures
            r == self.ordered().len(),
    {
        self.list.len()
    }

    /// The word at position `i` of the ordered list.
    pub fn word_at(&self, i: usize) -> (r: &String)
        requires
            i < self.ordered().len(),
        ensures
            r@ == self.ordered()[i as int],
    {
        &self.list[i]
    }

    /// The length in characters of the longest word.
    pub fn longest_word(&self) -> (r: usize)
        ensures
            r == self.longest(),
    {
        self.longest_word
    }

    /// The number of distinct words.
    pub fn unique_words(&self) -> (r: usize)
        ensures
            r == self.word_count(),
    {
        self.unique_words
    }

    pub fn case_sensitive(&self) -> (r: bool)
        ensures
            r == self.is_case_sensitive(),
    {
        self.case_sensitive
    }

    /// Adds `count` to the entry of the normalized `word`, creating it if absent.
    fn add_word(&mut self, word: String, count: i32)
        requires
            old(self).keys_wf(),
        ensures
            final(self).keys_wf(),
            final(self).counts() == added(
                old(self).counts(),
                normalized(word@, old(self).case_sensitive),
                count,
            ),
            final(self).case_sensitive == old(self).case_sensitive,
    {
        let key = normalize(word.as_str(), self.case_sensitive);
        let existing: Option<i64> = match self.dictionary.get(key.as_str()) {
            Some(c) => Some(*c),
            None => None,
        };
        match existing {
            Some(c) => {
                let total = add_count(c, count);
                let ghost kk = key@;
                self.dictionary.insert(key, total);
                proof {
                    assert forall|k: Seq<char>|
                        self.dictionary@.contains_key(k) <==> strings_view(self.keys@).contains(
                            k,
                        ) by {
                        if k == kk {
                            assert(old(self).dictionary@.contains_key(k));
                        }
                    }
                }
            },
            None => {
                let ghost old_keys = self.keys@;
                self.keys.push(key.clone());
                proof {
                    assert(strings_view(self.keys@) =~= strings_view(old_keys).push(key@));
                }
                let ghost kk = key@;
                self.dictionary.insert(key, count as i64);
                proof {
                    assert(strings_view(self.keys@).last() == kk);
                    assert forall|k: Seq<char>|
                        self.dictionary@.contains_key(k) <==> strings_view(self.keys@).contains(
                            k,
                        ) by {
                        if k == kk {
                            assert(strings_view(self.keys@)[strings_view(old_keys).len() as int]
                                == kk);
                        } else if strings_view(self.keys@).contains(k) {
                            let q = choose|q: int|
                                0 <= q < strings_view(self.keys@).len() && strings_view(
                                    self.keys@,
                                )[q] == k;
                            assert(strings_view(old_keys)[q] == k);
                        } else if old(self).dictionary@.contains_key(k) {
                            let q = choose|q: int|
                                0 <= q < strings_view(old_keys).len() && strings_view(
                                    old_keys,
                                )[q] == k;
                            assert(strings_view(self.keys@)[q] == k);
                        }
                    }
                }
            },
        }
    }

    /// Rebuilds the ordered list and the statistics from the dictionary.
    fn update(&mut self)
        requires
            old(self).keys_wf(),
            old(self).counts().dom().finite(),
        ensures
            final(self).wf(),
            final(self).counts() == old(self).counts(),
            final(self).case_sensitive == old(self).case_sensitive,
    {
        let ghost kv = strings_view(self.keys@);
        let ghost dict = self.dictionary@;
        let mut pairs: Vec<(String, i64)> = Vec::new();
        let mut longest: usize = 0;
        let mut i: usize = 0;
        while i < self.keys.len()
            invariant
                self.keys_wf(),
                kv == strings_view(self.keys@),
                dict == self.dictionary@,
                i <= self.keys.len(),
                pairs.len() == i,
                forall|q: int|
                    0 <= q < i ==> (#[trigger] pairs@[q]).0@ == kv[q] && pairs@[q].1 == dict[kv[q]],
                forall|q: int| 0 <= q < i ==> (#[trigger] kv[q]).len() <= longest,
                longest == 0 || exists|q: int| 0 <= q < i && (#[trigger] kv[q]).len() == longest,
            decreases self.keys.len() - i,
        {
            let k = self.keys[i].clone();
            proof {
                assert(kv[i as int] == k@);
                assert(kv.contains(k@));
            }
            let c: i64 = match self.dictionary.get(k.as_str()) {
                Some(c) => *c,
                None => 0,
            };
            let len = k.as_str().unicode_len();
            if len > longest {
                longest = len;
            }
            pairs.push((k, c));
            i += 1;
        }
        let ghost unsorted = pairs@;
        sort_by_count(&mut pairs);
        let mut list: Vec<String> = Vec::new();
        let mut j: usize = 0;
        while j < pairs.len()
            invariant
                j <= pairs.len(),
                list.len() == j,
                forall|q: int| 0 <= q < j ==> (#[trigger] list@[q])@ == pairs@[q].0@,
            decreases pairs.len() - j,
        {
            list.push(pairs[j].0.clone());
            j += 1;
        }
        proof {
            let ov = strings_view(list@);
            assert forall|p: (String, i64)| #[trigger] pairs@.contains(p) implies dict.contains_key(
                p.0@,
            ) && p.1 == dict[p.0@] by {
                assert(unsorted.to_multiset().count(p) > 0);
                let q = choose|q: int| 0 <= q < unsorted.len() && unsorted[q] == p;
                assert(kv.contains(kv[q]));
            }
            assert forall|k: Seq<char>| #[trigger] dict.contains_key(k) <==> ov.contains(k) by {
                if dict.contains_key(k) {
                    let q = choose|q: int| 0 <= q < kv.len() && kv[q] == k;
                    let p = unsorted[q];
                    assert(unsorted.contains(p));
                    assert(pairs@.to_multiset().count(p) > 0);
                    let jj = choose|jj: int| 0 <= jj < pairs@.len() && pairs@[jj] == p;
                    assert(ov[jj] == k);
                }
                if ov.contains(k) {
                    let jj = choose|jj: int| 0 <= jj < ov.len() && ov[jj] == k;
                    assert(pairs@.contains(pairs@[jj]));
                }
            }
            assert forall|a: int, b: int| 0 <= a < b < ov.len() implies dict[#[trigger] ov[a]]
                <= dict[#[trigger] ov[b]] by {
                assert(pairs@.contains(pairs@[a]));
                assert(pairs@.contains(pairs@[b]));
            }
            if longest > 0 {
                let q = choose|q: int| 0 <= q < kv.len() && (#[trigger] kv[q]).len() == longest;
                assert(kv.contains(kv[q]));
            }
            assert forall|k: Seq<char>| #[trigger] dict.contains_key(k) implies k.len()
                <= longest by {
                let q = choose|q: int| 0 <= q < kv.len() && kv[q] == k;
            }
            assert(dict.dom() =~= kv.to_set());
            kv.unique_seq_to_set();
            // The sort only reorders, so the words stay distinct.
            assert(unsorted.no_duplicates()) by {
                assert forall|a: int, b: int|
                    0 <= a < unsorted.len() && 0 <= b < unsorted.len() && a != b implies unsorted[a]
                    != unsorted[b] by {
                    assert(kv[a] != kv[b]);
                }
            }
            unsorted.lemma_multiset_has_no_duplicates();
            pairs@.lemma_multiset_has_no_duplicates_conv();
            assert forall|a: int, b: int|
                0 <= a < ov.len() && 0 <= b < ov.len() && a != b implies ov[a] != ov[b] by {
                if ov[a] == ov[b] {
                    assert(pairs@.contains(pairs@[a]));
                    assert(pairs@.contains(pairs@[b]));
                    assert(unsorted.to_multiset().count(pairs@[a]) > 0);
                    assert(unsorted.to_multiset().count(pairs@[b]) > 0);
                    assert(unsorted.contains(pairs@[a]));
                    assert(unsorted.contains(pairs@[b]));
                    let qa = choose|q: int| 0 <= q < unsorted.len() && unsorted[q] == pairs@[a];
                    let qb = choose|q: int| 0 <= q < unsorted.len() && unsorted[q] == pairs@[b];
                    assert(pairs@[a] != pairs@[b]);
                    assert(kv[qa] == ov[a]);
                    assert(kv[qb] == ov[b]);
                    assert(qa != qb);
                }
            }
        }
        self.list = list;
        self.unique_words = self.keys.len();
        self.longest_word = longest;
    }

    /// Adds every entry of `dict`, then rebuilds the ordered list and statistics.
    pub fn load_dict(&mut self, dict: &Vec<(String, i32)>) -> (r: Result<(), BuildError>)
        requires
            old(self).wf(),
        ensures
            r is Ok,
            final(self).wf(),
            final(self).counts() == ingested(
                old(self).counts(),
                entries_view(dict@),
                old(self).is_case_sensitive(),
            ),
            final(self).is_case_sensitive() == old(self).is_case_sensitive(),
    {
        let ghost start = self.dictionary@;
        let mut i: usize = 0;
        while i < dict.len()
            invariant
                i <= dict.len(),
                self.keys_wf(),
                self.dictionary@.dom().finite(),
                self.case_sensitive == old(self).case_sensitive,
                self.dictionary@ == ingested(
                    start,
                    entries_view(dict@).subrange(0, i as int),
                    self.case_sensitive,
                ),
            decreases dict.len() - i,
        {
            let word = dict[i].0.clone();
            let count = dict[i].1;
            proof {
                let e = entries_view(dict@);
                assert(e.subrange(0, i + 1).drop_last() =~= e.subrange(0, i as int));
                assert(e.subrange(0, i + 1).last() == (word@, count));
            }
            self.add_word(word, count);
            i += 1;
        }
        proof {
            assert(entries_view(dict@).subrange(0, dict.len() as int) =~= entries_view(dict@));
        }
        self.update();
        Ok(())
    }
}

/// `total + count`, held to the range of `i64`.
fn add_count(total: i64, count: i32) -> (r: i64)
    ensures
        r == accumulate(total, count),
{
    match total.checked_add(count as i64) {
        Some(v) => v,
        None => if count > 0 {
            i64::MAX
        } else {
            i64::MIN
        },
    }
}

/// Relies on `slice::sort_by_key`: reorders the entries by ascending count.
#[verifier::external_body]
fn sort_by_count(v: &mut Vec<(String, i64)>)
    ensures
        final(v)@.to_multiset() == old(v)@.to_multiset(),
        forall|i: int, j: int|
            0 <= i < j < final(v)@.len() ==> (#[trigger] final(v)@[i]).1 <= (
            #[trigger] final(v)@[j]).1,
{
    v.sort_by_key(|e| e.1);
}

} // verus!
