//! Pattern-indexed dictionaries: words partitioned by length, with
//! pattern-match queries, and a ranked variant that also scores words and
//! answers range-bounded queries.
//!
//! Ordering policy: every query returns its words in the dictionary's own
//! scan order (the order of insertion within a size class); no query sorts
//! by rank.
//!
//! Queries scan the store directly and memoize nothing, so adding or
//! removing words between queries is always safe.

use vstd::prelude::*;
use vstd::pervasive::VecAdditionalExecFns;

use crate::basic_types::Letter;
use crate::basic_types::Pattern;
use crate::basic_types::Word;
use crate::basic_types::spec_matches;

verus! {

/// The view of each word in a sequence.
pub open spec fn views_of(words: Seq<Word>) -> Seq<Seq<Letter>> {
    words.map_values(|w: Word| w@)
}

/// What a pattern query returns: exactly the stored words of the pattern's
/// length that fit it, each once, in some order.
pub open spec fn lookup_post(ws: Set<Seq<Letter>>, masks: Seq<Option<Letter>>, r: Seq<Word>) -> bool {
    &&& forall|i: int|
        0 <= i < r.len() ==> ws.contains(#[trigger] r[i]@) && spec_matches(masks, r[i]@)
    &&& forall|w: Seq<Letter>|
        ws.contains(w) && spec_matches(masks, w) ==> views_of(r).contains(w)
    &&& forall|i: int, j: int| 0 <= i < j < r.len() ==> r[i]@ != r[j]@
}

/// Whether a score lies within the given inclusive bounds; a missing bound
/// does not constrain.
pub open spec fn score_in_bounds(score: i32, lower: Option<i32>, upper: Option<i32>) -> bool {
    &&& (lower matches Some(b) ==> b <= score)
    &&& (upper matches Some(b) ==> score <= b)
}

/// What a range query returns: exactly the stored words of the pattern's
/// length that fit it and whose score lies within the bounds, each once.
pub open spec fn lookup_range_post(
    ws: Set<Seq<Letter>>,
    scores: spec_fn(Seq<Letter>) -> i32,
    masks: Seq<Option<Letter>>,
    lower: Option<i32>,
    upper: Option<i32>,
    r: Seq<Word>,
) -> bool {
    &&& forall|i: int|
        0 <= i < r.len() ==> ws.contains(#[trigger] r[i]@) && spec_matches(masks, r[i]@)
            && score_in_bounds(scores(r[i]@), lower, upper)
    &&& forall|w: Seq<Letter>|
        ws.contains(w) && spec_matches(masks, w) && score_in_bounds(scores(w), lower, upper)
            ==> views_of(r).contains(w)
    &&& forall|i: int, j: int| 0 <= i < j < r.len() ==> r[i]@ != r[j]@
}

/// The base dictionary capability: membership and pattern queries.
pub trait UnrankedDict: Sized {
    /// The set of stored words.
    spec fn word_set(&self) -> Set<Seq<Letter>>;

    /// The dictionary's internal well-formedness.
    spec fn wf(&self) -> bool;

    /// Stores a word.
    fn add(&mut self, word: &Word)
        requires
            old(self).wf(),
        ensures
            final(self).wf(),
            final(self).word_set() == old(self).word_set().insert(word@),
    ;

    /// Drops a word; dropping an absent word changes nothing.
    fn remove(&mut self, word: &Word)
        requires
            old(self).wf(),
        ensures
            final(self).wf(),
            final(self).word_set() == old(self).word_set().remove(word@),
    ;

    /// Whether a word is stored.
    fn contains(&self, word: &Word) -> (r: bool)
        requires
            self.wf(),
        ensures
            r == self.word_set().contains(word@),
    ;

    /// The distinct stored words of the pattern's length that fit it; a size
    /// class that was never populated yields an empty result.
    fn lookup(&self, pattern: &Pattern) -> (r: Vec<Word>)
        requires
            self.wf(),
        ensures
            lookup_post(self.word_set(), pattern@, r@),
    ;
}

/// The ranked extension: a score per word and range-bounded queries.
pub trait RankedDict: UnrankedDict {
    /// The score stored for a word (meaningful only for stored words).
    spec fn score_of(&self, w: Seq<Letter>) -> i32;

    /// The stored score of a word, or none when the word is absent.
    fn get_score(&self, word: &Word) -> (r: Option<i32>)
        requires
            self.wf(),
        ensures
            r == if self.word_set().contains(word@) {
                Some(self.score_of(word@))
            } else {
                None::<i32>
            },
    ;

    /// Sets a stored word's score and reports true; reports false and
    /// changes nothing when the word is absent.
    fn set_score(&mut self, word: &Word, rank: i32) -> (r: bool)
        requires
            old(self).wf(),
        ensures
            final(self).wf(),
            r == old(self).word_set().contains(word@),
            final(self).word_set() == old(self).word_set(),
            r ==> final(self).score_of(word@) == rank,
            forall|w: Seq<Letter>|
                final(self).word_set().contains(w) && w != word@ ==> final(self).score_of(w)
                    == old(self).score_of(w),
    ;

    /// The distinct stored words of the pattern's length that fit it and
    /// whose score lies within the inclusive bounds.
    fn lookup_range(&self, pattern: &Pattern, lower: Option<i32>, upper: Option<i32>) -> (r: Vec<
        Word,
    >)
        requires
            self.wf(),
        ensures
            lookup_range_post(
                self.word_set(),
                |w: Seq<Letter>| self.score_of(w),
                pattern@,
                lower,
                upper,
                r@,
            ),
    ;
}

// ---------------------------------------------------------------------------
// Unranked dictionary.
// ---------------------------------------------------------------------------

/// One size class: the stored words of one length.
#[derive(Clone, Debug)]
struct SizeClass {
    size: usize,
    words: Vec<Word>,
}

/// A dictionary of words partitioned by length.
#[derive(Clone, Debug)]
pub struct Dictionary {
    classes: Vec<SizeClass>,
}

impl Dictionary {
    /// Whether some class holds the word sequence.
    spec fn has_word(&self, s: Seq<Letter>) -> bool {
        exists|k: int, i: int|
            0 <= k < self.classes@.len() && 0 <= i < self.classes@[k].words@.len()
                && (#[trigger] self.classes@[k].words@[i])@ == s
    }

    /// Classes carry distinct sizes, and each class holds distinct words of
    /// exactly its size.
    spec fn inv(&self) -> bool {
        &&& forall|k1: int, k2: int|
            0 <= k1 < k2 < self.classes@.len() ==> (#[trigger] self.classes@[k1]).size != (
            #[trigger] self.classes@[k2]).size
        &&& forall|k: int, i: int|
            0 <= k < self.classes@.len() && 0 <= i < self.classes@[k].words@.len() ==> (
            #[trigger] self.classes@[k].words@[i])@.len() == self.classes@[k].size
        &&& forall|k: int, i: int, j: int|
            0 <= k < self.classes@.len() && 0 <= i < j < self.classes@[k].words@.len() ==> (
            #[trigger] self.classes@[k].words@[i])@ != (#[trigger] self.classes@[k].words@[j])@
    }

    /// An empty dictionary.
    pub fn new() -> (r: Dictionary)
        ensures
            r.wf(),
            r.word_set() == Set::<Seq<Letter>>::empty(),
    {
        let r = Dictionary { classes: Vec::new() };
        proof {
            assert(r.word_set() =~= Set::<Seq<Letter>>::empty());
        }
        r
    }

    /// The position of the class of the given size, if one exists.
    fn find_class(&self, size: usize) -> (r: Option<usize>)
        ensures
            r matches Some(k) ==> k < self.classes@.len() && self.classes@[k as int].size == size,
            r is None ==> forall|k: int|
                0 <= k < self.classes@.len() ==> (#[trigger] self.classes@[k]).size != size,
    {
        let mut k: usize = 0;
        while k < self.classes.len()
            invariant
                k <= self.classes@.len(),
                forall|j: int| 0 <= j < k ==> (#[trigger] self.classes@[j]).size != size,
            decreases self.classes@.len() - k,
        {
            if self.classes[k].size == size {
                return Some(k);
            }
            k += 1;
        }
        None
    }

    /// The position of the word within a class, if stored there.
    fn find_in_class(&self, k: usize, word: &Word) -> (r: Option<usize>)
        requires
            k < self.classes@.len(),
        ensures
            r matches Some(i) ==> i < self.classes@[k as int].words@.len()
                && self.classes@[k as int].words@[i as int]@ == word@,
            r is None ==> forall|i: int|
                0 <= i < self.classes@[k as int].words@.len() ==> (
                #[trigger] self.classes@[k as int].words@[i])@ != word@,
    {
        let words = &self.classes[k].words;
        let mut i: usize = 0;
        while i < words.len()
            invariant
                i <= words@.len(),
                words@ == self.classes@[k as int].words@,
                forall|j: int| 0 <= j < i ==> (#[trigger] words@[j])@ != word@,
            decreases words@.len() - i,
        {
            if &words[i] == word {
                return Some(i);
            }
            i += 1;
        }
        None
    }

    /// A word stored anywhere lies in the class of its length.
    proof fn lemma_localize(&self, k: int, s: Seq<Letter>)
        requires
            self.inv(),
            0 <= k < self.classes@.len(),
            self.classes@[k].size == s.len(),
        ensures
            self.has_word(s) <==> exists|i: int|
                0 <= i < self.classes@[k].words@.len() && (
                #[trigger] self.classes@[k].words@[i])@ == s,
    {
        if self.has_word(s) {
            let (k2, i2) = choose|k2: int, i2: int|
                0 <= k2 < self.classes@.len() && 0 <= i2 < self.classes@[k2].words@.len() && (
                #[trigger] self.classes@[k2].words@[i2])@ == s;
            assert(self.classes@[k2].size == s.len());
            assert(k2 == k);
        }
    }

    /// A word whose length no class carries is not stored.
    proof fn lemma_no_class(&self, s: Seq<Letter>)
        requires
            self.inv(),
            forall|k: int| 0 <= k < self.classes@.len() ==> (#[trigger] self.classes@[k]).size
                != s.len(),
        ensures
            !self.has_word(s),
    {
    }
}

impl UnrankedDict for Dictionary {
    closed spec fn word_set(&self) -> Set<Seq<Letter>> {
        Set::new(|s: Seq<Letter>| self.has_word(s))
    }

    closed spec fn wf(&self) -> bool {
        self.inv()
    }

    fn add(&mut self, word: &Word) {
        let ghost old_self = *self;
        match self.find_class(word.size()) {
            Some(k) => {
                match self.find_in_class(k, word) {
                    Some(_) => {
                        proof {
                            assert(old_self.has_word(word@));
                            assert(self.word_set() =~= old_self.word_set().insert(word@));
                        }
                    },
                    None => {
                        let ghost prev = self.classes@[k as int].words@;
                        let w = word.clone();
                        self.classes[k].words.push(w);
                        proof {
                            let kk = k as int;
                            assert(self.classes@[kk].words@ == prev.push(w));
                            assert forall|k2: int, i2: int|
                                0 <= k2 < self.classes@.len() && 0 <= i2
                                    < self.classes@[k2].words@.len() implies {
                                &&& (#[trigger] self.classes@[k2].words@[i2])@.len()
                                    == self.classes@[k2].size
                            } by {
                                if k2 == kk && i2 == prev.len() {
                                } else {
                                    assert(self.classes@[k2].words@[i2]
                                        == old_self.classes@[k2].words@[i2]);
                                }
                            }
                            assert(self.inv());
                            assert forall|s: Seq<Letter>| #[trigger]
                                self.word_set().contains(s) implies old_self.word_set().insert(
                                word@,
                            ).contains(s) by {
                                let (k2, i2) = choose|k2: int, i2: int|
                                    0 <= k2 < self.classes@.len() && 0 <= i2
                                        < self.classes@[k2].words@.len() && (
                                    #[trigger] self.classes@[k2].words@[i2])@ == s;
                                if k2 == kk && i2 == prev.len() {
                                } else {
                                    assert(old_self.classes@[k2].words@[i2]@ == s);
                                }
                            }
                            assert forall|s: Seq<Letter>|
                                old_self.word_set().insert(word@).contains(s) implies self
                                .word_set().contains(s) by {
                                if s == word@ {
                                    assert(self.classes@[kk].words@[prev.len() as int]@ == s);
                                } else {
                                    let (k2, i2) = choose|k2: int, i2: int|
                                        0 <= k2 < old_self.classes@.len() && 0 <= i2
                                            < old_self.classes@[k2].words@.len() && (
                                        #[trigger] old_self.classes@[k2].words@[i2])@ == s;
                                    assert(self.classes@[k2].words@[i2]@ == s);
                                }
                            }
                            assert(self.word_set() =~= old_self.word_set().insert(word@));
                        }
                    },
                }
            },
            None => {
                let w = word.clone();
                let mut words: Vec<Word> = Vec::new();
                words.push(w);
                self.classes.push(SizeClass { size: word.size(), words });
                proof {
                    let kk = self.classes@.len() - 1;
                    assert forall|k2: int, i2: int|
                        0 <= k2 < self.classes@.len() && 0 <= i2
                            < self.classes@[k2].words@.len() implies {
                        &&& (#[trigger] self.classes@[k2].words@[i2])@.len()
                            == self.classes@[k2].size
                    } by {
                        if k2 < kk {
                            assert(self.classes@[k2] == old_self.classes@[k2]);
                        }
                    }
                    assert(self.inv());
                    assert forall|s: Seq<Letter>| #[trigger] self.word_set().contains(
                        s,
                    ) implies old_self.word_set().insert(word@).contains(s) by {
                        let (k2, i2) = choose|k2: int, i2: int|
                            0 <= k2 < self.classes@.len() && 0 <= i2
                                < self.classes@[k2].words@.len() && (
                            #[trigger] self.classes@[k2].words@[i2])@ == s;
                        if k2 < kk {
                            assert(old_self.classes@[k2].words@[i2]@ == s);
                        }
                    }
                    assert forall|s: Seq<Letter>| old_self.word_set().insert(word@).contains(
                        s,
                    ) implies self.word_set().contains(s) by {
                        if s == word@ {
                            assert(self.classes@[kk].words@[0]@ == s);
                        } else {
                            let (k2, i2) = choose|k2: int, i2: int|
                                0 <= k2 < old_self.classes@.len() && 0 <= i2
                                    < old_self.classes@[k2].words@.len() && (
                                #[trigger] old_self.classes@[k2].words@[i2])@ == s;
                            assert(self.classes@[k2].words@[i2]@ == s);
                        }
                    }
                    assert(self.word_set() =~= old_self.word_set().insert(word@));
                }
            },
        }
    }

    fn remove(&mut self, word: &Word) {
        let ghost old_self = *self;
        match self.find_class(word.size()) {
            Some(k) => {
                match self.find_in_class(k, word) {
                    Some(i) => {
                        let ghost prev = self.classes@[k as int].words@;
                        self.classes[k].words.remove(i);
                        proof {
                            let kk = k as int;
                            let ii = i as int;
                            assert(self.classes@[kk].words@ == prev.remove(ii));
                            assert forall|k2: int, i2: int, j2: int|
                                0 <= k2 < self.classes@.len() && 0 <= i2 < j2
                                    < self.classes@[k2].words@.len() implies (
                            #[trigger] self.classes@[k2].words@[i2])@ != (
                            #[trigger] self.classes@[k2].words@[j2])@ by {
                                if k2 == kk {
                                    let pi = if i2 < ii {
                                        i2
                                    } else {
                                        i2 + 1
                                    };
                                    let pj = if j2 < ii {
                                        j2
                                    } else {
                                        j2 + 1
                                    };
                                    assert(prev[pi] == self.classes@[k2].words@[i2]);
                                    assert(prev[pj] == self.classes@[k2].words@[j2]);
                                } else {
                                    assert(self.classes@[k2] == old_self.classes@[k2]);
                                }
                            }
                            assert forall|k2: int, i2: int|
                                0 <= k2 < self.classes@.len() && 0 <= i2
                                    < self.classes@[k2].words@.len() implies (
                            #[trigger] self.classes@[k2].words@[i2])@.len()
                                == self.classes@[k2].size by {
                                if k2 == kk {
                                    let pi = if i2 < ii {
                                        i2
                                    } else {
                                        i2 + 1
                                    };
                                    assert(prev[pi] == self.classes@[k2].words@[i2]);
                                } else {
                                    assert(self.classes@[k2] == old_self.classes@[k2]);
                                }
                            }
                            assert(self.inv());
                            assert forall|s: Seq<Letter>| #[trigger] self.word_set().contains(
                                s,
                            ) implies old_self.word_set().remove(word@).contains(s) by {
                                let (k2, i2) = choose|k2: int, i2: int|
                                    0 <= k2 < self.classes@.len() && 0 <= i2
                                        < self.classes@[k2].words@.len() && (
                                    #[trigger] self.classes@[k2].words@[i2])@ == s;
                                if k2 == kk {
                                    let pi = if i2 < ii {
                                        i2
                                    } else {
                                        i2 + 1
                                    };
                                    assert(old_self.classes@[k2].words@[pi]@ == s);
                                    assert(s != word@);
                                } else {
                                    assert(old_self.classes@[k2].words@[i2]@ == s);
                                    assert(old_self.classes@[k2].size == s.len());
                                    assert(s.len() != word@.len() || k2 == kk);
                                    assert(s != word@);
                                }
                            }
                            assert forall|s: Seq<Letter>| old_self.word_set().remove(
                                word@,
                            ).contains(s) implies self.word_set().contains(s) by {
                                let (k2, i2) = choose|k2: int, i2: int|
                                    0 <= k2 < old_self.classes@.len() && 0 <= i2
                                        < old_self.classes@[k2].words@.len() && (
                                    #[trigger] old_self.classes@[k2].words@[i2])@ == s;
                                if k2 == kk {
                                    assert(i2 != ii);
                                    let ni = if i2 < ii {
                                        i2
                                    } else {
                                        i2 - 1
                                    };
                                    assert(self.classes@[kk].words@[ni] == prev[i2]);
                                } else {
                                    assert(self.classes@[k2].words@[i2]@ == s);
                                }
                            }
                            assert(self.word_set() =~= old_self.word_set().remove(word@));
                        }
                    },
                    None => {
                        proof {
                            self.lemma_localize(k as int, word@);
                            assert(!old_self.has_word(word@));
                            assert(self.word_set() =~= old_self.word_set().remove(word@));
                        }
                    },
                }
            },
            None => {
                proof {
                    self.lemma_no_class(word@);
                    assert(self.word_set() =~= old_self.word_set().remove(word@));
                }
            },
        }
    }

    fn contains(&self, word: &Word) -> (r: bool) {
        match self.find_class(word.size()) {
            Some(k) => {
                proof {
                    self.lemma_localize(k as int, word@);
                }
                match self.find_in_class(k, word) {
                    Some(_) => true,
                    None => false,
                }
            },
            None => {
                proof {
                    self.lemma_no_class(word@);
                }
                false
            },
        }
    }

    fn lookup(&self, pattern: &Pattern) -> (r: Vec<Word>) {
        match self.find_class(pattern.size()) {
            Some(k) => {
                proof {
                    assert forall|w: Seq<Letter>|
                        self.word_set().contains(w) && spec_matches(pattern@, w) implies exists|
                    i: int|
                        0 <= i < self.classes@[k as int].words@.len() && (
                        #[trigger] self.classes@[k as int].words@[i])@ == w by {
                        self.lemma_localize(k as int, w);
                    }
                }
                let words = &self.classes[k].words;
                let mut r: Vec<Word> = Vec::new();
                let mut i: usize = 0;
                // A pattern with no constrained position matches every word
                // of its length, so the scan may skip the per-word check.
                let unconstrained = all_wildcards(pattern);
                while i < words.len()
                    invariant
                        i <= words@.len(),
                        words@ == self.classes@[k as int].words@,
                        self.wf(),
                        k < self.classes@.len(),
                        self.classes@[k as int].size == pattern@.len(),
                        unconstrained ==> forall|p: int|
                            0 <= p < pattern@.len() ==> #[trigger] pattern@[p] is None,
                        forall|j: int|
                            0 <= j < r@.len() ==> self.word_set().contains((#[trigger] r@[j])@)
                                && spec_matches(pattern@, r@[j]@),
                        forall|j: int|
                            0 <= j < i && spec_matches(pattern@, (#[trigger] words@[j])@)
                                ==> views_of(r@).contains(words@[j]@),
                        forall|j1: int, j2: int| 0 <= j1 < j2 < r@.len() ==> r@[j1]@ != r@[j2]@,
                        forall|j: int|
                            0 <= j < r@.len() ==> exists|p: int|
                                0 <= p < i && (#[trigger] r@[j])@ == words@[p]@,
                    decreases words@.len() - i,
                {
                    let fits = if unconstrained {
                        proof {
                            assert(words@[i as int]@.len() == pattern@.len());
                        }
                        true
                    } else {
                        pattern.matches(&words[i])
                    };
                    if fits {
                        let ghost prev = r@;
                        r.push(words[i].clone());
                        proof {
                            assert(self.classes@[k as int].words@[i as int]@ == words@[i as int]@);
                            assert(self.word_set().contains(words@[i as int]@));
                            assert(r@[prev.len() as int]@ == words@[i as int]@);
                            assert forall|j1: int, j2: int|
                                0 <= j1 < j2 < r@.len() implies r@[j1]@ != r@[j2]@ by {
                                if j2 == prev.len() {
                                    let pw = choose|p: int|
                                        0 <= p < i && (#[trigger] prev[j1])@ == words@[p]@;
                                    assert(self.classes@[k as int].words@[pw]@
                                        != self.classes@[k as int].words@[i as int]@);
                                }
                            }
                            assert forall|j: int|
                                0 <= j < i + 1 && spec_matches(
                                    pattern@,
                                    (#[trigger] words@[j])@,
                                ) implies views_of(r@).contains(words@[j]@) by {
                                if j < i {
                                    assert(views_of(prev).contains(words@[j]@));
                                    let q = choose|q: int|
                                        0 <= q < prev.len() && views_of(prev)[q] == words@[j]@;
                                    assert(views_of(r@)[q] == words@[j]@);
                                } else {
                                    assert(views_of(r@)[prev.len() as int] == words@[j]@);
                                }
                            }
                        }
                    } else {
                        proof {
                            assert(!spec_matches(pattern@, words@[i as int]@));
                        }
                    }
                    i += 1;
                }
                proof {
                    assert forall|w: Seq<Letter>|
                        self.word_set().contains(w) && spec_matches(
                            pattern@,
                            w,
                        ) implies views_of(r@).contains(w) by {
                        let j = choose|j: int|
                            0 <= j < self.classes@[k as int].words@.len() && (
                            #[trigger] self.classes@[k as int].words@[j])@ == w;
                        assert(spec_matches(pattern@, words@[j]@));
                    }
                }
                r
            },
            None => {
                let r: Vec<Word> = Vec::new();
                proof {
                    assert forall|w: Seq<Letter>|
                        self.word_set().contains(w) && spec_matches(
                            pattern@,
                            w,
                        ) implies views_of(r@).contains(w) by {
                        self.lemma_no_class(w);
                    }
                }
                r
            },
        }
    }
}

// ---------------------------------------------------------------------------
// Ranked dictionary.
// ---------------------------------------------------------------------------

/// One size class of the ranked dictionary: the stored words of one length
/// and, in step, the score of each.
#[derive(Clone, Debug)]
struct RankedClass {
    size: usize,
    words: Vec<Word>,
    ranks: Vec<i32>,
}

/// A dictionary of words partitioned by length, each word carrying an
/// integer score.
#[derive(Clone, Debug)]
pub struct RankedDictionary {
    classes: Vec<RankedClass>,
}

impl RankedDictionary {
    /// Whether position (k, i) stores the word sequence.
    spec fn at_pos(&self, k: int, i: int, s: Seq<Letter>) -> bool {
        &&& 0 <= k < self.classes@.len()
        &&& 0 <= i < self.classes@[k].words@.len()
        &&& self.classes@[k].words@[i]@ == s
    }

    /// Whether some class holds the word sequence.
    spec fn has_word(&self, s: Seq<Letter>) -> bool {
        exists|k: int, i: int| #[trigger] self.at_pos(k, i, s)
    }

    /// Classes carry distinct sizes; each class holds distinct words of
    /// exactly its size, with one score per word.
    spec fn inv(&self) -> bool {
        &&& forall|k1: int, k2: int|
            0 <= k1 < k2 < self.classes@.len() ==> (#[trigger] self.classes@[k1]).size != (
            #[trigger] self.classes@[k2]).size
        &&& forall|k: int|
            0 <= k < self.classes@.len() ==> (#[trigger] self.classes@[k]).ranks@.len()
                == self.classes@[k].words@.len()
        &&& forall|k: int, i: int|
            0 <= k < self.classes@.len() && 0 <= i < self.classes@[k].words@.len() ==> (
            #[trigger] self.classes@[k].words@[i])@.len() == self.classes@[k].size
        &&& forall|k: int, i: int, j: int|
            0 <= k < self.classes@.len() && 0 <= i < j < self.classes@[k].words@.len() ==> (
            #[trigger] self.classes@[k].words@[i])@ != (#[trigger] self.classes@[k].words@[j])@
    }

    /// A word is stored in at most one position.
    proof fn lemma_pos_unique(&self, k1: int, i1: int, k2: int, i2: int, s: Seq<Letter>)
        requires
            self.inv(),
            self.at_pos(k1, i1, s),
            self.at_pos(k2, i2, s),
        ensures
            k1 == k2,
            i1 == i2,
    {
        assert(self.classes@[k1].size == s.len());
        assert(self.classes@[k2].size == s.len());
        if i1 < i2 {
            assert(self.classes@[k1].words@[i1]@ != self.classes@[k1].words@[i2]@);
        } else if i2 < i1 {
            assert(self.classes@[k1].words@[i2]@ != self.classes@[k1].words@[i1]@);
        }
    }

    /// The stored score of a word known to sit at position (k, i).
    proof fn lemma_score_at(&self, k: int, i: int, s: Seq<Letter>)
        requires
            self.inv(),
            self.at_pos(k, i, s),
        ensures
            self.score_of(s) == self.classes@[k].ranks@[i],
    {
        let (k2, i2) = choose|k2: int, i2: int| #[trigger] self.at_pos(k2, i2, s);
        self.lemma_pos_unique(k, i, k2, i2, s);
    }

    /// A word stored anywhere lies in the class of its length.
    proof fn lemma_localize(&self, k: int, s: Seq<Letter>)
        requires
            self.inv(),
            0 <= k < self.classes@.len(),
            self.classes@[k].size == s.len(),
        ensures
            self.has_word(s) <==> exists|i: int|
                0 <= i < self.classes@[k].words@.len() && (
                #[trigger] self.classes@[k].words@[i])@ == s,
    {
        if self.has_word(s) {
            let (k2, i2) = choose|k2: int, i2: int| #[trigger] self.at_pos(k2, i2, s);
            assert(self.classes@[k2].size == s.len());
            assert(k2 == k);
        }
        if exists|i: int|
            0 <= i < self.classes@[k].words@.len() && (#[trigger] self.classes@[k].words@[i])@
                == s {
            let i = choose|i: int|
                0 <= i < self.classes@[k].words@.len() && (#[trigger] self.classes@[k].words@[i])@
                    == s;
            assert(self.at_pos(k, i, s));
        }
    }

    /// A word whose length no class carries is not stored.
    proof fn lemma_no_class(&self, s: Seq<Letter>)
        requires
            self.inv(),
            forall|k: int| 0 <= k < self.classes@.len() ==> (#[trigger] self.classes@[k]).size
                != s.len(),
        ensures
            !self.has_word(s),
    {
        if self.has_word(s) {
            let (k, i) = choose|k: int, i: int| #[trigger] self.at_pos(k, i, s);
            assert(self.classes@[k].size == s.len());
        }
    }

    /// An empty ranked dictionary; words added to it start with score zero.
    pub fn new() -> (r: RankedDictionary)
        ensures
            r.wf(),
            r.word_set() == Set::<Seq<Letter>>::empty(),
    {
        let r = RankedDictionary { classes: Vec::new() };
        proof {
            assert forall|s: Seq<Letter>| !r.has_word(s) by {
                if r.has_word(s) {
                    let (k, i) = choose|k: int, i: int| #[trigger] r.at_pos(k, i, s);
                }
            }
            assert(r.word_set() =~= Set::<Seq<Letter>>::empty());
        }
        r
    }

    /// The position of the class of the given size, if one exists.
    fn find_class(&self, size: usize) -> (r: Option<usize>)
        ensures
            r matches Some(k) ==> k < self.classes@.len() && self.classes@[k as int].size == size,
            r is None ==> forall|k: int|
                0 <= k < self.classes@.len() ==> (#[trigger] self.classes@[k]).size != size,
    {
        let mut k: usize = 0;
        while k < self.classes.len()
            invariant
                k <= self.classes@.len(),
                forall|j: int| 0 <= j < k ==> (#[trigger] self.classes@[j]).size != size,
            decreases self.classes@.len() - k,
        {
            if self.classes[k].size == size {
                return Some(k);
            }
            k += 1;
        }
        None
    }

    /// The position of the word within a class, if stored there.
    fn find_in_class(&self, k: usize, word: &Word) -> (r: Option<usize>)
        requires
            k < self.classes@.len(),
        ensures
            r matches Some(i) ==> i < self.classes@[k as int].words@.len()
                && self.classes@[k as int].words@[i as int]@ == word@,
            r is None ==> forall|i: int|
                0 <= i < self.classes@[k as int].words@.len() ==> (
                #[trigger] self.classes@[k as int].words@[i])@ != word@,
    {
        let words = &self.classes[k].words;
        let mut i: usize = 0;
        while i < words.len()
            invariant
                i <= words@.len(),
                words@ == self.classes@[k as int].words@,
                forall|j: int| 0 <= j < i ==> (#[trigger] words@[j])@ != word@,
            decreases words@.len() - i,
        {
            if &words[i] == word {
                return Some(i);
            }
            i += 1;
        }
        None
    }
}

impl UnrankedDict for RankedDictionary {
    closed spec fn word_set(&self) -> Set<Seq<Letter>> {
        Set::new(|s: Seq<Letter>| self.has_word(s))
    }

    closed spec fn wf(&self) -> bool {
        self.inv()
    }

    /// Beyond the trait contract: the added word's score becomes the
    /// default of zero (also when the word was already stored), and every
    /// other stored word keeps its score.
    fn add(&mut self, word: &Word)
        ensures
            final(self).score_of(word@) == 0,
            forall|w: Seq<Letter>|
                final(self).word_set().contains(w) && w != word@ ==> final(self).score_of(w)
                    == old(self).score_of(w),
    {
        let ghost old_self = *self;
        match self.find_class(word.size()) {
            Some(k) => {
                match self.find_in_class(k, word) {
                    Some(i) => {
                        // Storing a word again resets its score to the
                        // default.
                        let d: i32 = 0;
                        self.classes[k].ranks.set(i, d);
                        proof {
                            let kk = k as int;
                            let ii = i as int;
                            assert forall|k2: int|
                                0 <= k2 < self.classes@.len() implies (
                            #[trigger] self.classes@[k2]).words@ == old_self.classes@[k2].words@ by {
                            }
                            assert(self.inv());
                            assert(old_self.at_pos(kk, ii, word@));
                            assert forall|s: Seq<Letter>| #[trigger] self.has_word(
                                s,
                            ) implies old_self.has_word(s) by {
                                let (k2, i2) = choose|k2: int, i2: int| #[trigger] self.at_pos(
                                    k2,
                                    i2,
                                    s,
                                );
                                assert(old_self.at_pos(k2, i2, s));
                            }
                            assert forall|s: Seq<Letter>| #[trigger] old_self.has_word(
                                s,
                            ) implies self.has_word(s) by {
                                let (k2, i2) = choose|k2: int, i2: int| #[trigger] old_self.at_pos(
                                    k2,
                                    i2,
                                    s,
                                );
                                assert(self.at_pos(k2, i2, s));
                            }
                            assert forall|s: Seq<Letter>|
                                self.word_set().contains(s) == old_self.word_set().insert(
                                word@,
                            ).contains(s) by {
                                if s == word@ {
                                    assert(old_self.at_pos(kk, ii, s));
                                    assert(old_self.has_word(s));
                                    assert(self.has_word(s));
                                }
                            }
                            assert(self.word_set() =~= old_self.word_set().insert(word@));
                            assert(self.at_pos(kk, ii, word@));
                            self.lemma_score_at(kk, ii, word@);
                            assert forall|w2: Seq<Letter>|
                                self.word_set().contains(w2) && w2 != word@ implies self.score_of(
                                w2,
                            ) == old_self.score_of(w2) by {
                                let (k2, i2) = choose|k2: int, i2: int| #[trigger] self.at_pos(
                                    k2,
                                    i2,
                                    w2,
                                );
                                assert(old_self.at_pos(k2, i2, w2));
                                self.lemma_score_at(k2, i2, w2);
                                old_self.lemma_score_at(k2, i2, w2);
                                if k2 == kk && i2 == ii {
                                    assert(w2 == word@);
                                }
                                assert(self.classes@[k2].ranks@[i2]
                                    == old_self.classes@[k2].ranks@[i2]);
                            }
                        }
                    },
                    None => {
                        let ghost prev = self.classes@[k as int].words@;
                        let w = word.clone();
                        let d: i32 = 0;
                        self.classes[k].words.push(w);
                        self.classes[k].ranks.push(d);
                        proof {
                            let kk = k as int;
                            assert(self.classes@[kk].words@ == prev.push(w));
                            assert forall|k2: int, i2: int|
                                0 <= k2 < self.classes@.len() && 0 <= i2
                                    < self.classes@[k2].words@.len() implies (
                            #[trigger] self.classes@[k2].words@[i2])@.len()
                                == self.classes@[k2].size by {
                                if k2 == kk && i2 == prev.len() {
                                } else {
                                    assert(self.classes@[k2].words@[i2]
                                        == old_self.classes@[k2].words@[i2]);
                                }
                            }
                            assert(self.inv());
                            assert forall|s: Seq<Letter>| #[trigger] self.word_set().contains(
                                s,
                            ) implies old_self.word_set().insert(word@).contains(s) by {
                                let (k2, i2) = choose|k2: int, i2: int| #[trigger] self.at_pos(
                                    k2,
                                    i2,
                                    s,
                                );
                                if k2 == kk && i2 == prev.len() {
                                } else {
                                    assert(old_self.at_pos(k2, i2, s));
                                }
                            }
                            assert forall|s: Seq<Letter>| old_self.word_set().insert(
                                word@,
                            ).contains(s) implies self.word_set().contains(s) by {
                                if s == word@ {
                                    assert(self.at_pos(kk, prev.len() as int, s));
                                } else {
                                    let (k2, i2) = choose|k2: int, i2: int|
                                        #[trigger] old_self.at_pos(k2, i2, s);
                                    assert(self.at_pos(k2, i2, s));
                                }
                            }
                            assert(self.word_set() =~= old_self.word_set().insert(word@));
                            let ii = prev.len() as int;
                            assert(self.at_pos(kk, ii, word@));
                            self.lemma_score_at(kk, ii, word@);
                            assert(self.classes@[kk].ranks@[ii] == 0);
                            assert forall|w2: Seq<Letter>|
                                self.word_set().contains(w2) && w2 != word@ implies self.score_of(
                                w2,
                            ) == old_self.score_of(w2) by {
                                let (k2, i2) = choose|k2: int, i2: int| #[trigger] self.at_pos(
                                    k2,
                                    i2,
                                    w2,
                                );
                                if k2 == kk && i2 == ii {
                                    assert(w2 == word@);
                                }
                                assert(old_self.at_pos(k2, i2, w2));
                                self.lemma_score_at(k2, i2, w2);
                                old_self.lemma_score_at(k2, i2, w2);
                                assert(self.classes@[k2].ranks@[i2]
                                    == old_self.classes@[k2].ranks@[i2]);
                            }
                        }
                    },
                }
            },
            None => {
                let w = word.clone();
                let d: i32 = 0;
                let mut words: Vec<Word> = Vec::new();
                words.push(w);
                let mut ranks: Vec<i32> = Vec::new();
                ranks.push(d);
                self.classes.push(RankedClass { size: word.size(), words, ranks });
                proof {
                    let kk = self.classes@.len() - 1;
                    assert forall|k2: int, i2: int|
                        0 <= k2 < self.classes@.len() && 0 <= i2
                            < self.classes@[k2].words@.len() implies (
                    #[trigger] self.classes@[k2].words@[i2])@.len() == self.classes@[k2].size by {
                        if k2 < kk {
                            assert(self.classes@[k2] == old_self.classes@[k2]);
                        }
                    }
                    assert(self.inv());
                    assert forall|s: Seq<Letter>| #[trigger] self.word_set().contains(
                        s,
                    ) implies old_self.word_set().insert(word@).contains(s) by {
                        let (k2, i2) = choose|k2: int, i2: int| #[trigger] self.at_pos(k2, i2, s);
                        if k2 < kk {
                            assert(old_self.at_pos(k2, i2, s));
                        }
                    }
                    assert forall|s: Seq<Letter>| old_self.word_set().insert(word@).contains(
                        s,
                    ) implies self.word_set().contains(s) by {
                        if s == word@ {
                            assert(self.at_pos(kk, 0, s));
                        } else {
                            let (k2, i2) = choose|k2: int, i2: int| #[trigger] old_self.at_pos(
                                k2,
                                i2,
                                s,
                            );
                            assert(self.at_pos(k2, i2, s));
                        }
                    }
                    assert(self.word_set() =~= old_self.word_set().insert(word@));
                    assert(self.at_pos(kk, 0, word@));
                    self.lemma_score_at(kk, 0, word@);
                    assert(self.classes@[kk].ranks@[0] == 0);
                    assert forall|w2: Seq<Letter>|
                        self.word_set().contains(w2) && w2 != word@ implies self.score_of(w2)
                        == old_self.score_of(w2) by {
                        let (k2, i2) = choose|k2: int, i2: int| #[trigger] self.at_pos(k2, i2, w2);
                        if k2 == kk {
                            assert(w2 == word@);
                        }
                        assert(old_self.at_pos(k2, i2, w2));
                        self.lemma_score_at(k2, i2, w2);
                        old_self.lemma_score_at(k2, i2, w2);
                        assert(self.classes@[k2].ranks@[i2] == old_self.classes@[k2].ranks@[i2]);
                    }
                }
            },
        }
    }

    fn remove(&mut self, word: &Word) {
        let ghost old_self = *self;
        match self.find_class(word.size()) {
            Some(k) => {
                match self.find_in_class(k, word) {
                    Some(i) => {
                        let ghost prev = self.classes@[k as int].words@;
                        let ghost prev_ranks = self.classes@[k as int].ranks@;
                        self.classes[k].words.remove(i);
                        self.classes[k].ranks.remove(i);
                        proof {
                            let kk = k as int;
                            let ii = i as int;
                            assert(self.classes@[kk].words@ == prev.remove(ii));
                            assert forall|k2: int, i2: int, j2: int|
                                0 <= k2 < self.classes@.len() && 0 <= i2 < j2
                                    < self.classes@[k2].words@.len() implies (
                            #[trigger] self.classes@[k2].words@[i2])@ != (
                            #[trigger] self.classes@[k2].words@[j2])@ by {
                                if k2 == kk {
                                    let pi = if i2 < ii {
                                        i2
                                    } else {
                                        i2 + 1
                                    };
                                    let pj = if j2 < ii {
                                        j2
                                    } else {
                                        j2 + 1
                                    };
                                    assert(prev[pi] == self.classes@[k2].words@[i2]);
                                    assert(prev[pj] == self.classes@[k2].words@[j2]);
                                } else {
                                    assert(self.classes@[k2] == old_self.classes@[k2]);
                                }
                            }
                            assert forall|k2: int, i2: int|
                                0 <= k2 < self.classes@.len() && 0 <= i2
                                    < self.classes@[k2].words@.len() implies (
                            #[trigger] self.classes@[k2].words@[i2])@.len()
                                == self.classes@[k2].size by {
                                if k2 == kk {
                                    let pi = if i2 < ii {
                                        i2
                                    } else {
                                        i2 + 1
                                    };
                                    assert(prev[pi] == self.classes@[k2].words@[i2]);
                                } else {
                                    assert(self.classes@[k2] == old_self.classes@[k2]);
                                }
                            }
                            assert(self.inv());
                            assert forall|s: Seq<Letter>| #[trigger] self.word_set().contains(
                                s,
                            ) implies old_self.word_set().remove(word@).contains(s) by {
                                let (k2, i2) = choose|k2: int, i2: int| #[trigger] self.at_pos(
                                    k2,
                                    i2,
                                    s,
                                );
                                if k2 == kk {
                                    let pi = if i2 < ii {
                                        i2
                                    } else {
                                        i2 + 1
                                    };
                                    assert(old_self.at_pos(k2, pi, s));
                                    assert(old_self.classes@[k2].words@[pi]@ == s);
                                    assert(s != word@);
                                } else {
                                    assert(old_self.at_pos(k2, i2, s));
                                    assert(old_self.classes@[k2].size == s.len());
                                    assert(s != word@);
                                }
                            }
                            assert forall|s: Seq<Letter>| old_self.word_set().remove(
                                word@,
                            ).contains(s) implies self.word_set().contains(s) by {
                                let (k2, i2) = choose|k2: int, i2: int| #[trigger] old_self.at_pos(
                                    k2,
                                    i2,
                                    s,
                                );
                                if k2 == kk {
                                    assert(i2 != ii);
                                    let ni = if i2 < ii {
                                        i2
                                    } else {
                                        i2 - 1
                                    };
                                    assert(self.classes@[kk].words@[ni] == prev[i2]);
                                    assert(self.at_pos(kk, ni, s));
                                } else {
                                    assert(self.at_pos(k2, i2, s));
                                }
                            }
                            assert(self.word_set() =~= old_self.word_set().remove(word@));
                        }
                    },
                    None => {
                        proof {
                            self.lemma_localize(k as int, word@);
                            assert(!old_self.has_word(word@));
                            assert(self.word_set() =~= old_self.word_set().remove(word@));
                        }
                    },
                }
            },
            None => {
                proof {
                    self.lemma_no_class(word@);
                    assert(self.word_set() =~= old_self.word_set().remove(word@));
                }
            },
        }
    }

    fn contains(&self, word: &Word) -> (r: bool) {
        match self.find_class(word.size()) {
            Some(k) => {
                proof {
                    self.lemma_localize(k as int, word@);
                }
                match self.find_in_class(k, word) {
                    Some(i) => {
                        proof {
                            assert(self.at_pos(k as int, i as int, word@));
                        }
                        true
                    },
                    None => false,
                }
            },
            None => {
                proof {
                    self.lemma_no_class(word@);
                }
                false
            },
        }
    }

    fn lookup(&self, pattern: &Pattern) -> (r: Vec<Word>) {
        self.lookup_range(pattern, None, None)
    }
}

impl RankedDict for RankedDictionary {
    closed spec fn score_of(&self, s: Seq<Letter>) -> i32 {
        let (k, i) = choose|k: int, i: int| #[trigger] self.at_pos(k, i, s);
        self.classes@[k].ranks@[i]
    }

    fn get_score(&self, word: &Word) -> (r: Option<i32>) {
        match self.find_class(word.size()) {
            Some(k) => {
                proof {
                    self.lemma_localize(k as int, word@);
                }
                match self.find_in_class(k, word) {
                    Some(i) => {
                        proof {
                            assert(self.at_pos(k as int, i as int, word@));
                            self.lemma_score_at(k as int, i as int, word@);
                        }
                        Some(self.classes[k].ranks[i])
                    },
                    None => None,
                }
            },
            None => {
                proof {
                    self.lemma_no_class(word@);
                }
                None
            },
        }
    }

    fn set_score(&mut self, word: &Word, rank: i32) -> (r: bool) {
        let ghost old_self = *self;
        match self.find_class(word.size()) {
            Some(k) => {
                proof {
                    self.lemma_localize(k as int, word@);
                }
                match self.find_in_class(k, word) {
                    Some(i) => {
                        self.classes[k].ranks.set(i, rank);
                        proof {
                            let kk = k as int;
                            let ii = i as int;
                            assert forall|k2: int|
                                0 <= k2 < self.classes@.len() implies (
                            #[trigger] self.classes@[k2]).words@ == old_self.classes@[k2].words@ by {
                            }
                            assert(self.inv());
                            assert forall|s: Seq<Letter>| #[trigger] self.has_word(
                                s,
                            ) implies old_self.has_word(s) by {
                                let (k2, i2) = choose|k2: int, i2: int| #[trigger] self.at_pos(
                                    k2,
                                    i2,
                                    s,
                                );
                                assert(old_self.at_pos(k2, i2, s));
                            }
                            assert forall|s: Seq<Letter>| #[trigger] old_self.has_word(
                                s,
                            ) implies self.has_word(s) by {
                                let (k2, i2) = choose|k2: int, i2: int| #[trigger] old_self.at_pos(
                                    k2,
                                    i2,
                                    s,
                                );
                                assert(self.at_pos(k2, i2, s));
                            }
                            assert(self.word_set() =~= old_self.word_set());
                            assert(self.at_pos(kk, ii, word@));
                            self.lemma_score_at(kk, ii, word@);
                            assert forall|w: Seq<Letter>|
                                self.word_set().contains(w) && w != word@ implies self.score_of(w)
                                == old_self.score_of(w) by {
                                let (k2, i2) = choose|k2: int, i2: int| #[trigger] self.at_pos(
                                    k2,
                                    i2,
                                    w,
                                );
                                assert(old_self.at_pos(k2, i2, w));
                                self.lemma_score_at(k2, i2, w);
                                old_self.lemma_score_at(k2, i2, w);
                                if k2 == kk && i2 == ii {
                                    assert(w == word@);
                                }
                                assert(self.classes@[k2].ranks@[i2]
                                    == old_self.classes@[k2].ranks@[i2]);
                            }
                        }
                        true
                    },
                    None => {
                        proof {
                            assert(self.word_set() =~= old_self.word_set());
                        }
                        false
                    },
                }
            },
            None => {
                proof {
                    self.lemma_no_class(word@);
                    assert(self.word_set() =~= old_self.word_set());
                }
                false
            },
        }
    }

    fn lookup_range(&self, pattern: &Pattern, lower: Option<i32>, upper: Option<i32>) -> (r: Vec<
        Word,
    >) {
        match self.find_class(pattern.size()) {
            Some(k) => {
                let words = &self.classes[k].words;
                let ranks = &self.classes[k].ranks;
                let mut r: Vec<Word> = Vec::new();
                let mut i: usize = 0;
                while i < words.len()
                    invariant
                        i <= words@.len(),
                        words@ == self.classes@[k as int].words@,
                        ranks@ == self.classes@[k as int].ranks@,
                        self.wf(),
                        k < self.classes@.len(),
                        self.classes@[k as int].size == pattern@.len(),
                        forall|j: int|
                            0 <= j < r@.len() ==> self.word_set().contains((#[trigger] r@[j])@)
                                && spec_matches(pattern@, r@[j]@) && score_in_bounds(
                                self.score_of(r@[j]@),
                                lower,
                                upper,
                            ),
                        forall|j: int|
                            0 <= j < i && spec_matches(pattern@, (#[trigger] words@[j])@)
                                && score_in_bounds(self.score_of(words@[j]@), lower, upper)
                                ==> views_of(r@).contains(words@[j]@),
                        forall|j1: int, j2: int| 0 <= j1 < j2 < r@.len() ==> r@[j1]@ != r@[j2]@,
                        forall|j: int|
                            0 <= j < r@.len() ==> exists|p: int|
                                0 <= p < i && (#[trigger] r@[j])@ == words@[p]@,
                    decreases words@.len() - i,
                {
                    proof {
                        assert(self.at_pos(k as int, i as int, words@[i as int]@));
                        self.lemma_score_at(k as int, i as int, words@[i as int]@);
                    }
                    let fits = pattern.matches(&words[i]);
                    if fits {
                        let rank = ranks[i];
                        let lower_ok = match lower {
                            Some(b) => b <= rank,
                            None => true,
                        };
                        let upper_ok = match upper {
                            Some(b) => rank <= b,
                            None => true,
                        };
                        if lower_ok && upper_ok {
                            let ghost prev = r@;
                            r.push(words[i].clone());
                            proof {
                                assert(r@[prev.len() as int]@ == words@[i as int]@);
                                assert forall|j1: int, j2: int|
                                    0 <= j1 < j2 < r@.len() implies r@[j1]@ != r@[j2]@ by {
                                    if j2 == prev.len() {
                                        let pw = choose|p: int|
                                            0 <= p < i && (#[trigger] prev[j1])@ == words@[p]@;
                                        assert(self.classes@[k as int].words@[pw]@
                                            != self.classes@[k as int].words@[i as int]@);
                                    }
                                }
                                assert forall|j: int|
                                    0 <= j < i + 1 && spec_matches(
                                        pattern@,
                                        (#[trigger] words@[j])@,
                                    ) && score_in_bounds(
                                        self.score_of(words@[j]@),
                                        lower,
                                        upper,
                                    ) implies views_of(r@).contains(words@[j]@) by {
                                    if j < i {
                                        assert(views_of(prev).contains(words@[j]@));
                                        let q = choose|q: int|
                                            0 <= q < prev.len() && views_of(prev)[q] == words@[j]@;
                                        assert(views_of(r@)[q] == words@[j]@);
                                    } else {
                                        assert(views_of(r@)[prev.len() as int] == words@[j]@);
                                    }
                                }
                            }
                        }
                    }
                    i += 1;
                }
                proof {
                    assert forall|w: Seq<Letter>|
                        self.word_set().contains(w) && spec_matches(pattern@, w) && score_in_bounds(
                            self.score_of(w),
                            lower,
                            upper,
                        ) implies views_of(r@).contains(w) by {
                        self.lemma_localize(k as int, w);
                        let j = choose|j: int|
                            0 <= j < self.classes@[k as int].words@.len() && (
                            #[trigger] self.classes@[k as int].words@[j])@ == w;
                        assert(spec_matches(pattern@, words@[j]@));
                    }
                }
                r
            },
            None => {
                let r: Vec<Word> = Vec::new();
                proof {
                    assert forall|w: Seq<Letter>|
                        self.word_set().contains(w) && spec_matches(
                            pattern@,
                            w,
                        ) implies views_of(r@).contains(w) by {
                        self.lemma_no_class(w);
                    }
                }
                r
            },
        }
    }
}

/// Whether a pattern constrains no position at all.
fn all_wildcards(pattern: &Pattern) -> (r: bool)
    ensures
        r == forall|p: int| 0 <= p < pattern@.len() ==> #[trigger] pattern@[p] is None,
{
    let mut i: usize = 0;
    while i < pattern.masks.len()
        invariant
            i <= pattern@.len(),
            forall|p: int| 0 <= p < i ==> #[trigger] pattern@[p] is None,
        decreases pattern@.len() - i,
    {
        if pattern.masks[i].is_some() {
            return false;
        }
        i += 1;
    }
    true
}

} // verus!
