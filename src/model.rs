//! The model store: vocabulary, vector table and word index, built once by
//! the loader and read-only afterwards.
use crate::format::{entries_prefix, lemma_entries_error_persists, load_spec, parse_header, read_entry, LoadError};
use crate::ranking::{is_top_selection, top_ranked};
use vstd::hash_map::StringHashMap;
use vstd::prelude::*;

verus! {

/// The position of the first occurrence of `w` in `words`.
pub open spec fn index_in(words: Seq<Seq<char>>, w: Seq<char>) -> Option<int>
    decreases words.len(),
{
    if words.len() == 0 {
        None
    } else {
        match index_in(words.drop_last(), w) {
            Some(i) => Some(i),
            None => if words.last() == w {
                Some(words.len() - 1)
            } else {
                None
            },
        }
    }
}

/// `index_in` finds the first occurrence, and finds nothing only for an absent word.
pub proof fn lemma_index_in(words: Seq<Seq<char>>, w: Seq<char>)
    ensures
        match index_in(words, w) {
            Some(i) => {
                &&& 0 <= i < words.len()
                &&& words[i] == w
                &&& forall|k: int| 0 <= k < i ==> words[k] != w
            },
            None => !words.contains(w),
        },
    decreases words.len(),
{
    if words.len() > 0 {
        let front = words.drop_last();
        lemma_index_in(front, w);
        assert forall|k: int| 0 <= k < front.len() implies front[k] == words[k] by {}
        if index_in(front, w) is None {
            if words.last() != w {
                assert forall|k: int| 0 <= k < words.len() implies words[k] != w by {
                    if k < words.len() - 1 {
                        assert(front[k] == words[k]);
                    }
                }
            }
        }
    }
}

/// Why a query could not be answered.
#[derive(Debug, Clone, PartialEq, Eq)]
pub enum QueryError {
    /// The query names a word that is not in the vocabulary.
    UnknownWordError(String),
    /// An analogy query with no positive and no negative word.
    EmptyQueryError,
}

/// One answer of a query: a vocabulary position, its word, and its score as
/// the raw bits of a 32-bit float.
#[derive(Debug, Clone, PartialEq, Eq)]
pub struct Neighbor {
    pub index: usize,
    pub word: String,
    pub score: u32,
}

pub open spec fn neighbor_indices(r: Seq<Neighbor>) -> Seq<usize> {
    r.map_values(|x: Neighbor| x.index)
}

/// Marks each vocabulary entry whose word occurs in `query`.
pub open spec fn excluded_by(words: Seq<Seq<char>>, query: Seq<Seq<char>>) -> Seq<bool> {
    Seq::new(words.len(), |k: int| query.contains(words[k]))
}

/// `r` is the top `n` of the entries that `excluded` leaves, each with its
/// word and its score.
pub open spec fn ranked_neighbors(
    words: Seq<Seq<char>>,
    scores: Seq<u32>,
    excluded: Seq<bool>,
    n: nat,
    r: Seq<Neighbor>,
) -> bool {
    &&& is_top_selection(scores, excluded, n, neighbor_indices(r))
    &&& forall|i: int|
        0 <= i < r.len() ==> (#[trigger] r[i]).word@ == words[r[i].index as int] && r[i].score
            == scores[r[i].index as int]
}

/// `k` is the first position of `query` whose word is not in `words`.
pub open spec fn is_first_missing(words: Seq<Seq<char>>, query: Seq<Seq<char>>, k: int) -> bool {
    &&& 0 <= k < query.len()
    &&& !words.contains(query[k])
    &&& forall|j: int| 0 <= j < k ==> words.contains(#[trigger] query[j])
}

pub open spec fn views(v: Seq<String>) -> Seq<Seq<char>> {
    v.map_values(|s: String| s@)
}

/// Word embeddings: the `i`-th vector belongs to the `i`-th word. Vectors hold
/// the raw bits of their 32-bit float components, as read from the stream.
pub struct WordVector {
    vocabulary: Vec<String>,
    vectors: Vec<Vec<u32>>,
    dimension: usize,
    index: StringHashMap<usize>,
    clusters: Option<Vec<String>>,
}

impl WordVector {
    /// The vocabulary, in the order of the source.
    pub closed spec fn words(&self) -> Seq<Seq<char>> {
        self.vocabulary@.map_values(|s: String| s@)
    }

    /// The vector table, one raw-bit vector per word.
    pub closed spec fn vector_table(&self) -> Seq<Seq<u32>> {
        self.vectors@.map_values(|v: Vec<u32>| v@)
    }

    pub closed spec fn dim(&self) -> nat {
        self.dimension as nat
    }

    /// Vocabulary and vectors correspond one to one, every vector has the
    /// model's dimension, and the index maps each word to its first position.
    pub closed spec fn wf(&self) -> bool {
        &&& self.vocabulary@.len() == self.vectors@.len()
        &&& forall|i: int| 0 <= i < self.vectors@.len() ==> (#[trigger] self.vectors@[i])@.len() == self.dimension
        &&& forall|w: Seq<char>| #[trigger] self.index@.contains_key(w) <==> index_in(self.words(), w) is Some
        &&& forall|w: Seq<char>| #[trigger] self.index@.contains_key(w) ==> index_in(self.words(), w) == Some(self.index@[w] as int)
        &&& self.clusters is None
    }

    /// Loads a model from the bytes of a word2vec binary file. The index keeps
    /// the first position of a word that occurs more than once.
    pub fn load_from_binary(data: &[u8]) -> (r: Result<WordVector, LoadError>)
        ensures
            match (r, load_spec(data@)) {
                (Ok(m), Ok((words, vectors, dim))) => {
                    &&& m.wf()
                    &&& m.words() == words
                    &&& m.vector_table() == vectors
                    &&& m.dim() == dim
                },
                (Err(e), Err(se)) => e == se,
                _ => false,
            },
    {
        let (count, dim, body) = match parse_header(data) {
            None => return Err(LoadError::FormatError),
            Some(h) => h,
        };
        let mut vocabulary: Vec<String> = Vec::new();
        let mut vectors: Vec<Vec<u32>> = Vec::new();
        let mut pos: usize = body;
        assert(vocabulary@.map_values(|s: String| s@) =~= Seq::<Seq<char>>::empty());
        assert(vectors@.map_values(|v: Vec<u32>| v@) =~= Seq::<Seq<u32>>::empty());
        let mut i: usize = 0;
        while i < count
            invariant
                i <= count,
                pos <= data@.len(),
                vocabulary@.len() == i,
                vectors@.len() == i,
                forall|k: int| 0 <= k < i ==> (#[trigger] vectors@[k])@.len() == dim,
                entries_prefix(data@, body as int, i as nat, count as nat, dim as nat) == Ok::<
                    (Seq<Seq<char>>, Seq<Seq<u32>>, int),
                    LoadError,
                >((vocabulary@.map_values(|s: String| s@), vectors@.map_values(|v: Vec<u32>| v@), pos as int)),
                load_spec(data@) == (match entries_prefix(data@, body as int, count as nat, count as nat, dim as nat) {
                    Err(e) => Err(e),
                    Ok((words, vecs, _)) => Ok((words, vecs, dim as nat)),
                }),
            decreases count - i,
        {
            match read_entry(data, pos, dim, i + 1 == count) {
                Err(e) => {
                    proof {
                        lemma_entries_error_persists(data@, body as int, (i + 1) as nat, count as nat, count as nat, dim as nat);
                    }
                    return Err(e);
                },
                Ok((w, v, next)) => {
                    let ghost old_words = vocabulary@.map_values(|s: String| s@);
                    let ghost old_vectors = vectors@.map_values(|v: Vec<u32>| v@);
                    let ghost (ww, vv) = (w@, v@);
                    vocabulary.push(w);
                    vectors.push(v);
                    assert(vocabulary@.map_values(|s: String| s@) =~= old_words.push(ww));
                    assert(vectors@.map_values(|v: Vec<u32>| v@) =~= old_vectors.push(vv));
                    pos = next;
                },
            }
            i = i + 1;
        }
        let index = build_index(&vocabulary);
        Ok(WordVector { vocabulary, vectors, dimension: dim, index, clusters: None })
    }
}

impl WordVector {
    /// The position of `word`, the first one where it occurs more than once.
    pub fn get_index(&self, word: &str) -> (r: Option<usize>)
        requires
            self.wf(),
        ensures
            match r {
                Some(i) => index_in(self.words(), word@) == Some(i as int),
                None => index_in(self.words(), word@) is None,
            },
    {
        match self.index.get(word) {
            Some(i) => Some(*i),
            None => None,
        }
    }

    /// The vector of `word`, as raw float bits.
    pub fn vector_of(&self, word: &str) -> (r: Option<&Vec<u32>>)
        requires
            self.wf(),
        ensures
            match r {
                Some(v) => index_in(self.words(), word@) matches Some(i) && v@ == self.vector_table()[i],
                None => !self.words().contains(word@),
            },
    {
        proof {
            lemma_index_in(self.words(), word@);
        }
        match self.get_index(word) {
            Some(i) => Some(&self.vectors[i]),
            None => None,
        }
    }

    /// The number of words.
    pub fn len(&self) -> (r: usize)
        requires
            self.wf(),
        ensures
            r == self.words().len(),
            r == self.vector_table().len(),
    {
        self.vocabulary.len()
    }

    /// The number of components of every vector.
    pub fn dimension(&self) -> (r: usize)
        ensures
            r == self.dim(),
    {
        self.dimension
    }

    /// The word at position `i`.
    pub fn word(&self, i: usize) -> (r: &String)
        requires
            self.wf(),
            i < self.words().len(),
        ensures
            r@ == self.words()[i as int],
    {
        &self.vocabulary[i]
    }

    /// The vector at position `i`, as raw float bits.
    pub fn vector(&self, i: usize) -> (r: &Vec<u32>)
        requires
            self.wf(),
            i < self.words().len(),
        ensures
            r@ == self.vector_table()[i as int],
            r@.len() == self.dim(),
    {
        &self.vectors[i]
    }

    /// Cluster labels, one per word where present; the binary loader sets none.
    pub fn clusters(&self) -> (r: Option<&Vec<String>>)
        requires
            self.wf(),
        ensures
            r is None,
    {
        match &self.clusters {
            Some(c) => Some(c),
            None => None,
        }
    }

    /// Whether `word` is in the vocabulary.
    pub fn contains(&self, word: &str) -> (r: bool)
        requires
            self.wf(),
        ensures
            r == self.words().contains(word@),
    {
        proof {
            lemma_index_in(self.words(), word@);
        }
        self.index.contains_key(word)
    }
}

impl WordVector {
    /// The vocabulary position of each word of `query`, or the first word
    /// that is not in the vocabulary.
    pub fn resolve(&self, query: &Vec<String>) -> (r: Result<Vec<usize>, QueryError>)
        requires
            self.wf(),
        ensures
            match r {
                Ok(found) => {
                    &&& found@.len() == query@.len()
                    &&& forall|q: int|
                        0 <= q < query@.len() ==> index_in(self.words(), query@[q]@) == Some(
                            #[trigger] found@[q] as int,
                        )
                },
                Err(QueryError::UnknownWordError(w)) => exists|k: int|
                    is_first_missing(self.words(), views(query@), k) && w@ == query@[k]@,
                Err(QueryError::EmptyQueryError) => false,
            },
            r is Ok <==> forall|q: int| 0 <= q < query@.len() ==> self.words().contains(#[trigger] query@[q]@),
    {
        let mut found: Vec<usize> = Vec::new();
        let mut q: usize = 0;
        while q < query.len()
            invariant
                self.wf(),
                q <= query@.len(),
                found@.len() == q,
                forall|j: int|
                    0 <= j < q ==> index_in(self.words(), query@[j]@) == Some(#[trigger] found@[j] as int),
                forall|j: int| 0 <= j < q ==> self.words().contains(#[trigger] query@[j]@),
            decreases query@.len() - q,
        {
            proof {
                lemma_index_in(self.words(), query@[q as int]@);
            }
            match self.get_index(query[q].as_str()) {
                None => {
                    let ghost qs = views(query@);
                    assert(is_first_missing(self.words(), qs, q as int));
                    proof {
                        if forall|j: int| 0 <= j < query@.len() ==> self.words().contains(#[trigger] query@[j]@) {
                            assert(self.words().contains(query@[q as int]@));
                        }
                    }
                    return Err(QueryError::UnknownWordError(query[q].clone()));
                },
                Some(i) => {
                    found.push(i);
                },
            }
            q = q + 1;
        }
        Ok(found)
    }

    /// Marks each entry whose word is one of those at the positions `targets`,
    /// which are first positions of the words of `query`.
    fn exclusion_mask(&self, targets: &Vec<usize>, query: Ghost<Seq<Seq<char>>>) -> (r: Vec<bool>)
        requires
            self.wf(),
            targets@.len() == query@.len(),
            forall|q: int|
                0 <= q < query@.len() ==> index_in(self.words(), query@[q]) == Some(#[trigger] targets@[q] as int),
        ensures
            r@ == excluded_by(self.words(), query@),
    {
        let ghost words = self.words();
        let mut mask: Vec<bool> = Vec::new();
        let mut k: usize = 0;
        while k < self.vocabulary.len()
            invariant
                self.wf(),
                words == self.words(),
                words.len() == self.vocabulary@.len(),
                k <= words.len(),
                targets@.len() == query@.len(),
                forall|q: int|
                    0 <= q < query@.len() ==> index_in(words, query@[q]) == Some(#[trigger] targets@[q] as int),
                mask@ == excluded_by(words, query@).take(k as int),
            decreases words.len() - k,
        {
            proof {
                lemma_index_in(words, words[k as int]);
                assert(words.contains(words[k as int]));
            }
            let first = match self.index.get(self.vocabulary[k].as_str()) {
                Some(f) => *f,
                None => 0,
            };
            assert(index_in(words, words[k as int]) == Some(first as int));
            let mut hit = false;
            let mut q: usize = 0;
            while q < targets.len()
                invariant
                    q <= targets@.len() == query@.len(),
                    k < words.len(),
                    index_in(words, words[k as int]) == Some(first as int),
                    forall|j: int|
                        0 <= j < query@.len() ==> index_in(words, query@[j]) == Some(#[trigger] targets@[j] as int),
                    hit <==> exists|j: int| 0 <= j < q && targets@[j] == first,
                decreases targets@.len() - q,
            {
                if targets[q] == first {
                    hit = true;
                }
                q = q + 1;
            }
            proof {
                if hit {
                    let j = choose|j: int| 0 <= j < q && targets@[j] == first;
                    lemma_index_in(words, query@[j]);
                    lemma_index_in(words, words[k as int]);
                    assert(query@[j] == words[k as int]);
                } else {
                    assert forall|j: int| 0 <= j < query@.len() implies query@[j] != words[k as int] by {
                        if query@[j] == words[k as int] {
                            assert(targets@[j] == first);
                        }
                    }
                }
            }
            mask.push(hit);
            assert(mask@ =~= excluded_by(words, query@).take(k + 1));
            k = k + 1;
        }
        assert(mask@ =~= excluded_by(words, query@));
        mask
    }

    /// Pairs each chosen position with its word and score.
    fn neighbors(&self, chosen: &Vec<usize>, scores: &Vec<u32>) -> (r: Vec<Neighbor>)
        requires
            self.wf(),
            scores@.len() == self.words().len(),
            forall|i: int| 0 <= i < chosen@.len() ==> #[trigger] chosen@[i] < scores@.len(),
        ensures
            neighbor_indices(r@) == chosen@,
            forall|i: int|
                0 <= i < r@.len() ==> (#[trigger] r@[i]).word@ == self.words()[r@[i].index as int]
                    && r@[i].score == scores@[r@[i].index as int],
    {
        let mut r: Vec<Neighbor> = Vec::new();
        let mut i: usize = 0;
        while i < chosen.len()
            invariant
                self.wf(),
                scores@.len() == self.words().len(),
                forall|j: int| 0 <= j < chosen@.len() ==> #[trigger] chosen@[j] < scores@.len(),
                i <= chosen@.len(),
                neighbor_indices(r@) == chosen@.take(i as int),
                forall|j: int|
                    0 <= j < r@.len() ==> (#[trigger] r@[j]).word@ == self.words()[r@[j].index as int]
                        && r@[j].score == scores@[r@[j].index as int],
            decreases chosen@.len() - i,
        {
            let k = chosen[i];
            let item = Neighbor { index: k, word: self.vocabulary[k].clone(), score: scores[k] };
            let ghost old_r = r@;
            r.push(item);
            assert(neighbor_indices(r@) =~= neighbor_indices(old_r).push(k));
            assert(chosen@.take(i + 1) =~= chosen@.take(i as int).push(k));
            i = i + 1;
        }
        assert(chosen@.take(chosen@.len() as int) =~= chosen@);
        r
    }

    /// The `n` entries whose `scores` rank highest, leaving out `word`
    /// itself. `scores[k]` is the bits of the cosine similarity of entry `k`
    /// with `word`.
    pub fn nearest(&self, word: &str, scores: &Vec<u32>, n: usize) -> (r: Result<Vec<Neighbor>, QueryError>)
        requires
            self.wf(),
            scores@.len() == self.words().len(),
        ensures
            !self.words().contains(word@) ==> (r matches Err(QueryError::UnknownWordError(w)) && w@ == word@),
            self.words().contains(word@) ==> (r matches Ok(v) && ranked_neighbors(
                self.words(),
                scores@,
                excluded_by(self.words(), seq![word@]),
                n as nat,
                v@,
            )),
            r matches Ok(v) ==> forall|i: int| 0 <= i < v@.len() ==> (#[trigger] v@[i]).word@ != word@,
    {
        proof {
            lemma_index_in(self.words(), word@);
        }
        let first = match self.get_index(word) {
            None => return Err(QueryError::UnknownWordError(word.to_owned())),
            Some(i) => i,
        };
        let targets = vec![first];
        let ghost query = seq![word@];
        let mask = self.exclusion_mask(&targets, Ghost(query));
        let chosen = top_ranked(scores, &mask, n);
        let v = self.neighbors(&chosen, scores);
        assert forall|i: int| 0 <= i < v@.len() implies (#[trigger] v@[i]).word@ != word@ by {
            assert(neighbor_indices(v@)[i] == v@[i].index);
            assert(!mask@[v@[i].index as int]);
            assert(query[0] == word@);
        }
        Ok(v)
    }

    /// The `n` entries whose `scores` rank highest, leaving out every word
    /// of `positive` and `negative`. `scores[k]` is the bits of the dot
    /// product of entry `k` with the mean of the positive vectors and the
    /// negated negative ones.
    pub fn analogy(
        &self,
        positive: &Vec<String>,
        negative: &Vec<String>,
        scores: &Vec<u32>,
        n: usize,
    ) -> (r: Result<Vec<Neighbor>, QueryError>)
        requires
            self.wf(),
            scores@.len() == self.words().len(),
        ensures
            ({
                let query = views(positive@) + views(negative@);
                &&& query.len() == 0 ==> r == Err::<Vec<Neighbor>, QueryError>(QueryError::EmptyQueryError)
                &&& query.len() > 0 && (exists|k: int| is_first_missing(self.words(), query, k)) ==> (r matches Err(
                    QueryError::UnknownWordError(w),
                ) && exists|k: int| is_first_missing(self.words(), query, k) && w@ == query[k])
                &&& query.len() > 0 && (forall|k: int| 0 <= k < query.len() ==> self.words().contains(#[trigger] query[k])) ==> (r matches Ok(v) && ranked_neighbors(
                    self.words(),
                    scores@,
                    excluded_by(self.words(), query),
                    n as nat,
                    v@,
                ))
                &&& r matches Ok(v) ==> forall|i: int, k: int|
                    0 <= i < v@.len() && 0 <= k < query.len() ==> (#[trigger] v@[i]).word@ != #[trigger] query[k]
            }),
    {
        let ghost query = views(positive@) + views(negative@);
        let mut all: Vec<String> = Vec::new();
        let mut i: usize = 0;
        while i < positive.len()
            invariant
                i <= positive@.len(),
                views(all@) == views(positive@).take(i as int),
            decreases positive@.len() - i,
        {
            let ghost before = all@;
            all.push(positive[i].clone());
            assert(views(all@) =~= views(before).push(positive@[i as int]@));
            assert(views(positive@).take(i + 1) =~= views(positive@).take(i as int).push(positive@[i as int]@));
            i = i + 1;
        }
        let mut i: usize = 0;
        while i < negative.len()
            invariant
                i <= negative@.len(),
                views(all@) == views(positive@) + views(negative@).take(i as int),
            decreases negative@.len() - i,
        {
            let ghost before = all@;
            all.push(negative[i].clone());
            assert(views(all@) =~= views(before).push(negative@[i as int]@));
            assert(views(positive@) + views(negative@).take(i + 1) =~= (views(positive@) + views(negative@).take(i as int)).push(negative@[i as int]@));
            i = i + 1;
        }
        assert(views(positive@).take(positive@.len() as int) =~= views(positive@));
        assert(views(negative@).take(negative@.len() as int) =~= views(negative@));
        assert(views(all@) == query);
        if all.len() == 0 {
            return Err(QueryError::EmptyQueryError);
        }
        let targets = match self.resolve(&all) {
            Err(e) => {
                proof {
                    let k = choose|k: int| 0 <= k < all@.len() && !self.words().contains(#[trigger] all@[k]@);
                    assert(query[k] == all@[k]@);
                    if forall|j: int| 0 <= j < query.len() ==> self.words().contains(#[trigger] query[j]) {
                        assert(self.words().contains(query[k]));
                    }
                    if exists|k: int| is_first_missing(self.words(), query, k) {
                        assert(e matches QueryError::UnknownWordError(_));
                    }
                }
                return Err(e);
            },
            Ok(t) => t,
        };
        proof {
            assert forall|k: int| 0 <= k < query.len() implies self.words().contains(#[trigger] query[k]) by {
                assert(query[k] == all@[k]@);
            }
            assert forall|k: int| !is_first_missing(self.words(), query, k) by {}
        }
        let mask = self.exclusion_mask(&targets, Ghost(query));
        let chosen = top_ranked(scores, &mask, n);
        let v = self.neighbors(&chosen, scores);
        assert forall|i: int, k: int|
            0 <= i < v@.len() && 0 <= k < query.len() implies (#[trigger] v@[i]).word@ != #[trigger] query[k] by {
            assert(neighbor_indices(v@)[i] == v@[i].index);
            assert(!mask@[v@[i].index as int]);
        }
        Ok(v)
    }
}

/// Looking a word of the vocabulary up gives back its position, or the
/// position of an earlier occurrence of the same word.
pub proof fn lemma_index_left_inverse(words: Seq<Seq<char>>, i: int)
    requires
        0 <= i < words.len(),
    ensures
        index_in(words, words[i]) matches Some(j) && j <= i && words[j] == words[i],
        (forall|k: int| 0 <= k < i ==> words[k] != words[i]) ==> index_in(words, words[i]) == Some(i),
{
    lemma_index_in(words, words[i]);
    assert(words.contains(words[i]));
}

/// Maps each word to the position of its first occurrence.
fn build_index(vocabulary: &Vec<String>) -> (index: StringHashMap<usize>)
    ensures
        forall|w: Seq<char>| #[trigger] index@.contains_key(w) <==> index_in(vocabulary@.map_values(|s: String| s@), w) is Some,
        forall|w: Seq<char>| #[trigger] index@.contains_key(w) ==> index_in(vocabulary@.map_values(|s: String| s@), w) == Some(index@[w] as int),
{
    let ghost words = vocabulary@.map_values(|s: String| s@);
    let mut index: StringHashMap<usize> = StringHashMap::new();
    let mut i: usize = 0;
    while i < vocabulary.len()
        invariant
            i <= vocabulary@.len(),
            words == vocabulary@.map_values(|s: String| s@),
            forall|w: Seq<char>| #[trigger] index@.contains_key(w) <==> index_in(words.take(i as int), w) is Some,
            forall|w: Seq<char>| #[trigger] index@.contains_key(w) ==> index_in(words.take(i as int), w) == Some(index@[w] as int),
        decreases vocabulary@.len() - i,
    {
        let word = &vocabulary[i];
        assert(words.take(i + 1).drop_last() =~= words.take(i as int));
        assert(words.take(i + 1).last() == word@);
        if !index.contains_key(word.as_str()) {
            index.insert(word.clone(), i);
        }
        i = i + 1;
    }
    assert(words.take(vocabulary@.len() as int) =~= words);
    index
}

} // verus!
