//! The word2vec binary layout: a text header `"<count> <dimension>\n"` followed,
//! for each word, by its bytes, one space, `4 * dimension` bytes of
//! little-endian 32-bit floats, and one separator byte.
use vstd::bytes::{
    lemma_auto_spec_u32_to_from_le_bytes, spec_u32_from_le_bytes, spec_u32_to_le_bytes,
    u32_from_le_bytes,
};
use vstd::prelude::*;
use vstd::slice::slice_subrange;
use vstd::utf8::{decode_utf8, valid_utf8};

verus! {

pub const SPACE: u8 = 0x20;

pub const NEWLINE: u8 = 0x0a;

/// Why a byte stream could not be read as a model.
#[derive(Debug, Clone, Copy, PartialEq, Eq, Structural)]
pub enum LoadError {
    /// The header or a word token is malformed.
    FormatError,
    /// The stream ends inside a vector or before an entry's separator.
    TruncatedDataError,
}

pub open spec fn is_digit(b: u8) -> bool {
    0x30 <= b <= 0x39
}

pub open spec fn all_digits(s: Seq<u8>) -> bool {
    forall|i: int| 0 <= i < s.len() ==> is_digit(#[trigger] s[i])
}

/// The number that a string of decimal digits denotes.
pub open spec fn decimal_value(s: Seq<u8>) -> nat
    decreases s.len(),
{
    if s.len() == 0 {
        0
    } else {
        decimal_value(s.drop_last()) * 10 + (s.last() - 0x30) as nat
    }
}

/// A header field: one or more digits whose value is positive and fits in `usize`.
pub open spec fn valid_count(s: Seq<u8>) -> bool {
    &&& s.len() > 0
    &&& all_digits(s)
    &&& 0 < decimal_value(s) <= usize::MAX
}

/// The first position in `from..to` that holds `b`.
pub open spec fn find_in(data: Seq<u8>, from: int, to: int, b: u8) -> Option<int>
    decreases to - from,
{
    if from < 0 || from >= to || to > data.len() {
        None
    } else if data[from] == b {
        Some(from)
    } else {
        find_in(data, from + 1, to, b)
    }
}

/// The header's vocabulary size and dimension, and where the first entry starts.
pub open spec fn header_fields(data: Seq<u8>) -> Option<(nat, nat, int)> {
    match find_in(data, 0, data.len() as int, NEWLINE) {
        None => None,
        Some(end) => match find_in(data, 0, end, SPACE) {
            None => None,
            Some(sep) => {
                let count = data.subrange(0, sep);
                let dim = data.subrange(sep + 1, end);
                if valid_count(count) && valid_count(dim) {
                    Some((decimal_value(count), decimal_value(dim), end + 1))
                } else {
                    None
                }
            },
        },
    }
}

/// What `find_in` reports is a position of `b` in range, with none before it.
pub proof fn lemma_find_in(data: Seq<u8>, from: int, to: int, b: u8)
    ensures
        match find_in(data, from, to, b) {
            Some(i) => {
                &&& 0 <= from <= i < to <= data.len()
                &&& data[i] == b
                &&& forall|k: int| from <= k < i ==> data[k] != b
            },
            None => forall|k: int|
                0 <= from <= k < to <= data.len() ==> data[k] != b,
        },
    decreases to - from,
{
    if !(from < 0 || from >= to || to > data.len()) && data[from] != b {
        lemma_find_in(data, from + 1, to, b);
    }
}

/// Finds the first `b` in `data[from..to]`.
pub fn find_byte(data: &[u8], from: usize, to: usize, b: u8) -> (r: Option<usize>)
    requires
        from <= to <= data@.len(),
    ensures
        r == (match find_in(data@, from as int, to as int, b) {
            Some(i) => Some(i as usize),
            None => None::<usize>,
        }),
{
    let mut i: usize = from;
    while i < to
        invariant
            from <= i <= to <= data@.len(),
            find_in(data@, from as int, to as int, b) == find_in(data@, i as int, to as int, b),
        decreases to - i,
    {
        if data[i] == b {
            return Some(i);
        }
        i = i + 1;
    }
    None
}


proof fn lemma_decimal_prefix_le(s: Seq<u8>, k: int)
    requires
        0 <= k <= s.len(),
    ensures
        decimal_value(s.take(k)) <= decimal_value(s),
    decreases s.len(),
{
    if k < s.len() {
        assert(s.drop_last().take(k) =~= s.take(k));
        lemma_decimal_prefix_le(s.drop_last(), k);
    } else {
        assert(s.take(k) =~= s);
    }
}

/// Reads the header field `data[start..end]`: its value where it is a valid count.
fn parse_count(data: &[u8], start: usize, end: usize) -> (r: Option<usize>)
    requires
        start <= end <= data@.len(),
    ensures
        r == (if valid_count(data@.subrange(start as int, end as int)) {
            Some(decimal_value(data@.subrange(start as int, end as int)) as usize)
        } else {
            None::<usize>
        }),
{
    let ghost s = data@.subrange(start as int, end as int);
    if start == end {
        return None;
    }
    let mut i: usize = start;
    while i < end
        invariant
            start <= i <= end <= data@.len(),
            s == data@.subrange(start as int, end as int),
            forall|k: int| 0 <= k < i - start ==> is_digit(#[trigger] s[k]),
        decreases end - i,
    {
        if data[i] < 0x30 || data[i] > 0x39 {
            assert(!is_digit(s[i - start]));
            return None;
        }
        i = i + 1;
    }
    assert(all_digits(s));
    let mut v: usize = 0;
    let mut i: usize = start;
    while i < end
        invariant
            start <= i <= end <= data@.len(),
            s == data@.subrange(start as int, end as int),
            all_digits(s),
            v == decimal_value(s.take(i - start)),
        decreases end - i,
    {
        let ghost k = i - start;
        assert(is_digit(s[k]));
        let d = (data[i] - 0x30) as usize;
        assert(s.take(k + 1).drop_last() =~= s.take(k));
        assert(s.take(k + 1).last() == data@[i as int]);
        match v.checked_mul(10) {
            None => {
                proof {
                    lemma_decimal_prefix_le(s, k + 1);
                }
                return None;
            },
            Some(m) => match m.checked_add(d) {
                None => {
                    proof {
                        lemma_decimal_prefix_le(s, k + 1);
                    }
                    return None;
                },
                Some(x) => {
                    v = x;
                },
            },
        }
        i = i + 1;
    }
    assert(s.take(end - start) =~= s);
    if v == 0 {
        None
    } else {
        Some(v)
    }
}

/// Reads the header line: vocabulary size, dimension, and where the entries start.
pub fn parse_header(data: &[u8]) -> (r: Option<(usize, usize, usize)>)
    ensures
        match (r, header_fields(data@)) {
            (Some((n, d, body)), Some((sn, sd, sbody))) => n == sn && d == sd && body == sbody,
            (None, None) => true,
            _ => false,
        },
        r matches Some((_, _, body)) ==> body <= data@.len(),
{
    let end = match find_byte(data, 0, data.len(), NEWLINE) {
        None => return None,
        Some(e) => e,
    };
    proof {
        lemma_find_in(data@, 0, data@.len() as int, NEWLINE);
    }
    let sep = match find_byte(data, 0, end, SPACE) {
        None => return None,
        Some(s) => s,
    };
    proof {
        lemma_find_in(data@, 0, end as int, SPACE);
    }
    let count = match parse_count(data, 0, sep) {
        None => return None,
        Some(c) => c,
    };
    let dim = match parse_count(data, sep + 1, end) {
        None => return None,
        Some(d) => d,
    };
    Some((count, dim, end + 1))
}


/// The raw bits of the 32-bit float stored little-endian at `data[p..p + 4]`.
pub open spec fn component_at(data: Seq<u8>, p: int) -> u32 {
    spec_u32_from_le_bytes(data.subrange(p, p + 4))
}

/// The `dim` components stored from `start` on, as raw float bits.
pub open spec fn vector_at(data: Seq<u8>, start: int, dim: nat) -> Seq<u32> {
    Seq::new(dim, |j: int| component_at(data, start + 4 * j))
}

/// One entry starting at `pos`: its word, its vector, and where the next entry
/// starts. The separator after the vector may be missing on the `last` entry.
pub open spec fn entry_at(data: Seq<u8>, pos: int, dim: nat, last: bool) -> Result<
    (Seq<char>, Seq<u32>, int),
    LoadError,
> {
    match find_in(data, pos, data.len() as int, SPACE) {
        None => Err(LoadError::FormatError),
        Some(sep) => {
            let word = data.subrange(pos, sep);
            let stop = sep + 1 + 4 * dim;
            if !valid_utf8(word) {
                Err(LoadError::FormatError)
            } else if stop > data.len() {
                Err(LoadError::TruncatedDataError)
            } else if stop < data.len() {
                Ok((decode_utf8(word), vector_at(data, sep + 1, dim), stop + 1))
            } else if last {
                Ok((decode_utf8(word), vector_at(data, sep + 1, dim), stop))
            } else {
                Err(LoadError::TruncatedDataError)
            }
        },
    }
}

/// The first `count` entries of a file of `total` entries whose first entry
/// starts at `body`: their words, their vectors, and where the next one starts.
pub open spec fn entries_prefix(data: Seq<u8>, body: int, count: nat, total: nat, dim: nat) -> Result<
    (Seq<Seq<char>>, Seq<Seq<u32>>, int),
    LoadError,
>
    decreases count,
{
    if count == 0 {
        Ok((Seq::empty(), Seq::empty(), body))
    } else {
        match entries_prefix(data, body, (count - 1) as nat, total, dim) {
            Err(e) => Err(e),
            Ok((words, vectors, pos)) => match entry_at(data, pos, dim, count == total) {
                Err(e) => Err(e),
                Ok((w, v, next)) => Ok((words.push(w), vectors.push(v), next)),
            },
        }
    }
}

/// What loading `data` gives: the vocabulary, the vectors and the dimension,
/// or the first error met in reading order.
pub open spec fn load_spec(data: Seq<u8>) -> Result<(Seq<Seq<char>>, Seq<Seq<u32>>, nat), LoadError> {
    match header_fields(data) {
        None => Err(LoadError::FormatError),
        Some((count, dim, body)) => match entries_prefix(data, body, count, count, dim) {
            Err(e) => Err(e),
            Ok((words, vectors, _)) => Ok((words, vectors, dim)),
        },
    }
}

/// Once reading fails, reading further entries fails with the same error.
pub proof fn lemma_entries_error_persists(
    data: Seq<u8>,
    body: int,
    count: nat,
    more: nat,
    total: nat,
    dim: nat,
)
    requires
        count <= more,
        entries_prefix(data, body, count, total, dim) is Err,
    ensures
        entries_prefix(data, body, more, total, dim) == entries_prefix(data, body, count, total, dim),
    decreases more - count,
{
    if count < more {
        lemma_entries_error_persists(data, body, count, (more - 1) as nat, total, dim);
    }
}

/// The decimal digits of `n`, without leading zeros.
pub open spec fn decimal_digits(n: nat) -> Seq<u8>
    decreases n,
{
    if n < 10 {
        seq![(0x30 + n) as u8]
    } else {
        decimal_digits(n / 10).push((0x30 + n % 10) as u8)
    }
}

/// The components of `v`, four little-endian bytes each.
pub open spec fn vector_bytes(v: Seq<u32>) -> Seq<u8>
    decreases v.len(),
{
    if v.len() == 0 {
        Seq::empty()
    } else {
        vector_bytes(v.drop_last()) + spec_u32_to_le_bytes(v.last())
    }
}

/// One entry as a file stores it: the word, a space, the vector, a newline.
pub open spec fn entry_bytes(word: Seq<u8>, v: Seq<u32>) -> Seq<u8> {
    word.push(SPACE) + vector_bytes(v).push(NEWLINE)
}

/// The entries of a file, in order.
pub open spec fn entries_bytes(words: Seq<Seq<u8>>, vectors: Seq<Seq<u32>>) -> Seq<u8>
    decreases words.len(),
{
    if words.len() == 0 || vectors.len() == 0 {
        Seq::empty()
    } else {
        entries_bytes(words.drop_last(), vectors.drop_last()) + entry_bytes(words.last(), vectors.last())
    }
}

/// A whole file holding `words` with their `vectors` of dimension `dim`.
pub open spec fn file_bytes(words: Seq<Seq<u8>>, vectors: Seq<Seq<u32>>, dim: nat) -> Seq<u8> {
    header_bytes(words.len(), dim) + entries_bytes(words, vectors)
}

proof fn lemma_decimal_digits(n: nat)
    ensures
        decimal_digits(n).len() > 0,
        all_digits(decimal_digits(n)),
        decimal_value(decimal_digits(n)) == n,
    decreases n,
{
    if n >= 10 {
        lemma_decimal_digits(n / 10);
        let d = decimal_digits(n);
        assert(d.drop_last() =~= decimal_digits(n / 10));
        assert forall|i: int| 0 <= i < d.len() implies is_digit(#[trigger] d[i]) by {
            if i < d.len() - 1 {
                assert(d[i] == decimal_digits(n / 10)[i]);
            }
        }
        assert(n == (n / 10) * 10 + n % 10);
        assert(d.last() - 0x30 == n % 10);
        assert(decimal_value(d) == decimal_value(d.drop_last()) * 10 + (d.last() - 0x30) as nat);
        assert(decimal_value(d) == (n / 10) * 10 + n % 10);
    } else {
        let d = decimal_digits(n);
        assert(d.drop_last() =~= Seq::<u8>::empty());
        assert(decimal_value(d.drop_last()) == 0);
        assert(d.last() - 0x30 == n);
    }
}

proof fn lemma_vector_bytes(v: Seq<u32>)
    ensures
        vector_bytes(v).len() == 4 * v.len(),
        forall|j: int|
            0 <= j < v.len() ==> vector_bytes(v).subrange(4 * j, 4 * j + 4) == spec_u32_to_le_bytes(#[trigger] v[j]),
    decreases v.len(),
{
    lemma_auto_spec_u32_to_from_le_bytes();
    if v.len() > 0 {
        let front = v.drop_last();
        lemma_vector_bytes(front);
        let b = vector_bytes(v);
        assert forall|j: int| 0 <= j < v.len() implies b.subrange(4 * j, 4 * j + 4) == spec_u32_to_le_bytes(#[trigger] v[j]) by {
            if j < v.len() - 1 {
                assert(front[j] == v[j]);
                assert(b.subrange(4 * j, 4 * j + 4) =~= vector_bytes(front).subrange(4 * j, 4 * j + 4));
            } else {
                assert(b.subrange(4 * j, 4 * j + 4) =~= spec_u32_to_le_bytes(v.last()));
            }
        }
    }
}

proof fn lemma_find_at(data: Seq<u8>, from: int, k: int, to: int, b: u8)
    requires
        0 <= from <= k < to <= data.len(),
        data[k] == b,
        forall|i: int| from <= i < k ==> data[i] != b,
    ensures
        find_in(data, from, to, b) == Some(k),
    decreases k - from,
{
    if from < k {
        lemma_find_at(data, from + 1, k, to, b);
    }
}

/// An entry written at `pos` reads back as its word and vector.
proof fn lemma_entry_round_trip(data: Seq<u8>, pos: int, word: Seq<u8>, v: Seq<u32>, last: bool)
    requires
        0 <= pos,
        pos + entry_bytes(word, v).len() <= data.len(),
        data.subrange(pos, pos + entry_bytes(word, v).len()) == entry_bytes(word, v),
        valid_utf8(word),
        !word.contains(SPACE),
    ensures
        entry_at(data, pos, v.len(), last) == Ok::<(Seq<char>, Seq<u32>, int), LoadError>(
            (decode_utf8(word), v, pos + entry_bytes(word, v).len()),
        ),
{
    lemma_auto_spec_u32_to_from_le_bytes();
    lemma_vector_bytes(v);
    let e = entry_bytes(word, v);
    let vb = vector_bytes(v);
    let sep = pos + word.len();
    assert forall|t: int| 0 <= t < e.len() implies data[pos + t] == e[t] by {
        assert(data.subrange(pos, pos + e.len())[t] == data[pos + t]);
    }
    assert forall|i: int| pos <= i < sep implies data[i] != SPACE by {
        assert(data[i] == e[i - pos]);
        assert(e[i - pos] == word[i - pos]);
        if data[i] == SPACE {
            assert(word.contains(SPACE));
        }
    }
    assert(data[sep] == e[word.len() as int]);
    lemma_find_at(data, pos, sep, data.len() as int, SPACE);
    assert(data.subrange(pos, sep) =~= word) by {
        assert forall|t: int| 0 <= t < word.len() implies data.subrange(pos, sep)[t] == word[t] by {
            assert(data[pos + t] == e[t]);
        }
    }
    assert(vector_at(data, sep + 1, v.len()) =~= v) by {
        assert forall|j: int| 0 <= j < v.len() implies #[trigger] component_at(data, sep + 1 + 4 * j) == v[j] by {
            let at = sep + 1 + 4 * j;
            assert(data.subrange(at, at + 4) =~= vb.subrange(4 * j, 4 * j + 4)) by {
                assert forall|t: int| 0 <= t < 4 implies #[trigger] data.subrange(at, at + 4)[t] == vb.subrange(4 * j, 4 * j + 4)[t] by {
                    assert(data[at + t] == e[word.len() + 1 + 4 * j + t]);
                }
            }
        }
    }
}

proof fn lemma_entries_prefix_bytes(words: Seq<Seq<u8>>, vectors: Seq<Seq<u32>>, k: int)
    requires
        words.len() == vectors.len(),
        0 <= k <= words.len(),
    ensures
        entries_bytes(words.take(k), vectors.take(k)).len() <= entries_bytes(words, vectors).len(),
        entries_bytes(words, vectors).subrange(0, entries_bytes(words.take(k), vectors.take(k)).len() as int)
            == entries_bytes(words.take(k), vectors.take(k)),
    decreases words.len() - k,
{
    let all = entries_bytes(words, vectors);
    if k == words.len() {
        assert(words.take(k) =~= words);
        assert(vectors.take(k) =~= vectors);
        assert(all.subrange(0, all.len() as int) =~= all);
    } else {
        lemma_entries_prefix_bytes(words, vectors, k + 1);
        let next = entries_bytes(words.take(k + 1), vectors.take(k + 1));
        let here = entries_bytes(words.take(k), vectors.take(k));
        assert(words.take(k + 1).drop_last() =~= words.take(k));
        assert(vectors.take(k + 1).drop_last() =~= vectors.take(k));
        assert(next == here + entry_bytes(words[k], vectors[k]));
        assert(all.subrange(0, here.len() as int) =~= next.subrange(0, here.len() as int));
        assert(next.subrange(0, here.len() as int) =~= here);
    }
}

/// Writing words and vectors out in the binary layout and loading the bytes
/// gives back the same vocabulary, in the same order, and the same vectors.
pub proof fn lemma_load_round_trip(words: Seq<Seq<u8>>, vectors: Seq<Seq<u32>>, dim: nat)
    requires
        0 < words.len() <= usize::MAX,
        0 < dim <= usize::MAX,
        vectors.len() == words.len(),
        forall|i: int| 0 <= i < vectors.len() ==> (#[trigger] vectors[i]).len() == dim,
        forall|i: int| 0 <= i < words.len() ==> valid_utf8(#[trigger] words[i]) && !words[i].contains(SPACE),
    ensures
        load_spec(file_bytes(words, vectors, dim)) == Ok::<(Seq<Seq<char>>, Seq<Seq<u32>>, nat), LoadError>(
            (words.map_values(|w: Seq<u8>| decode_utf8(w)), vectors, dim),
        ),
{
    let data = file_bytes(words, vectors, dim);
    let head = header_bytes(words.len(), dim);
    let all = entries_bytes(words, vectors);
    assert(data == head + all);
    assert(data.subrange(0, head.len() as int) =~= head);
    lemma_header_round_trip(data, words.len(), dim);
    let body = head.len() as int;
    assert(data.subrange(body, body + all.len()) =~= all);
    let n = words.len();
    assert forall|k: nat| k <= n implies #[trigger] entries_prefix(data, body, k, n, dim) == Ok::<
        (Seq<Seq<char>>, Seq<Seq<u32>>, int),
        LoadError,
    >(
        (
            words.take(k as int).map_values(|w: Seq<u8>| decode_utf8(w)),
            vectors.take(k as int),
            body + entries_bytes(words.take(k as int), vectors.take(k as int)).len(),
        ),
    ) by {
        lemma_entries_round_trip(words, vectors, dim, data, body, n, k);
    }
    assert(words.take(n as int) =~= words);
    assert(vectors.take(n as int) =~= vectors);
}

proof fn lemma_entries_round_trip(
    words: Seq<Seq<u8>>,
    vectors: Seq<Seq<u32>>,
    dim: nat,
    data: Seq<u8>,
    body: int,
    total: nat,
    k: nat,
)
    requires
        k <= words.len() == vectors.len(),
        0 <= body,
        body + entries_bytes(words, vectors).len() <= data.len(),
        data.subrange(body, body + entries_bytes(words, vectors).len()) == entries_bytes(words, vectors),
        forall|i: int| 0 <= i < vectors.len() ==> (#[trigger] vectors[i]).len() == dim,
        forall|i: int| 0 <= i < words.len() ==> valid_utf8(#[trigger] words[i]) && !words[i].contains(SPACE),
    ensures
        entries_prefix(data, body, k, total, dim) == Ok::<
            (Seq<Seq<char>>, Seq<Seq<u32>>, int),
            LoadError,
        >(
            (
                words.take(k as int).map_values(|w: Seq<u8>| decode_utf8(w)),
                vectors.take(k as int),
                body + entries_bytes(words.take(k as int), vectors.take(k as int)).len() as int,
            ),
        ),
    decreases k,
{
    if k == 0 {
        assert(words.take(0).map_values(|w: Seq<u8>| decode_utf8(w)) =~= Seq::<Seq<char>>::empty());
        assert(vectors.take(0) =~= Seq::<Seq<u32>>::empty());
        assert(entries_bytes(words.take(0), vectors.take(0)) == Seq::<u8>::empty());
    } else {
        let j = (k - 1) as int;
        lemma_entries_round_trip(words, vectors, dim, data, body, total, (k - 1) as nat);
        lemma_entries_prefix_bytes(words, vectors, k as int);
        let before = entries_bytes(words.take(j), vectors.take(j));
        let upto = entries_bytes(words.take(k as int), vectors.take(k as int));
        let all = entries_bytes(words, vectors);
        let e = entry_bytes(words[j], vectors[j]);
        assert(words.take(k as int).drop_last() =~= words.take(j));
        assert(vectors.take(k as int).drop_last() =~= vectors.take(j));
        assert(upto == before + e);
        let pos = body + before.len();
        assert(data.subrange(pos, pos + e.len()) =~= e) by {
            assert forall|t: int| 0 <= t < e.len() implies data.subrange(pos, pos + e.len())[t] == e[t] by {
                assert(all.subrange(0, upto.len() as int)[before.len() + t] == upto[before.len() + t]);
                assert(data.subrange(body, body + all.len())[before.len() + t] == all[before.len() + t]);
            }
        }
        lemma_entry_round_trip(data, pos, words[j], vectors[j], k == total);
        assert(words.take(k as int).map_values(|w: Seq<u8>| decode_utf8(w)) =~= words.take(j).map_values(
            |w: Seq<u8>| decode_utf8(w),
        ).push(decode_utf8(words[j])));
        assert(vectors.take(k as int) =~= vectors.take(j).push(vectors[j]));
    }
}

/// The header of `file_bytes`.
pub open spec fn header_bytes(count: nat, dim: nat) -> Seq<u8> {
    decimal_digits(count).push(SPACE) + decimal_digits(dim).push(NEWLINE)
}

proof fn lemma_header_round_trip(data: Seq<u8>, count: nat, dim: nat)
    requires
        0 < count <= usize::MAX,
        0 < dim <= usize::MAX,
        header_bytes(count, dim).len() <= data.len(),
        data.subrange(0, header_bytes(count, dim).len() as int) == header_bytes(count, dim),
    ensures
        header_fields(data) == Some((count, dim, header_bytes(count, dim).len() as int)),
{
    let head = header_bytes(count, dim);
    let count_digits = decimal_digits(count);
    let dim_digits = decimal_digits(dim);
    lemma_decimal_digits(count);
    lemma_decimal_digits(dim);
    let sep = count_digits.len() as int;
    let end = sep + 1 + dim_digits.len();
    assert forall|i: int| 0 <= i < head.len() implies data[i] == head[i] by {
        assert(data.subrange(0, head.len() as int)[i] == data[i]);
    }
    assert forall|i: int| 0 <= i < end implies data[i] != NEWLINE by {
        if i < sep {
            assert(is_digit(count_digits[i]));
        } else if i > sep {
            assert(is_digit(dim_digits[i - sep - 1]));
        }
    }
    lemma_find_at(data, 0, end, data.len() as int, NEWLINE);
    assert forall|i: int| 0 <= i < sep implies data[i] != SPACE by {
        assert(is_digit(count_digits[i]));
    }
    lemma_find_at(data, 0, sep, end, SPACE);
    assert(data.subrange(0, sep) =~= count_digits);
    assert(data.subrange(sep + 1, end) =~= dim_digits);
}

/// Cutting a file off inside the vector of any entry makes loading fail with
/// `TruncatedDataError`.
pub proof fn lemma_truncated_vector(words: Seq<Seq<u8>>, vectors: Seq<Seq<u32>>, dim: nat, k: int, cut: int)
    requires
        0 < words.len() <= usize::MAX,
        0 < dim <= usize::MAX,
        vectors.len() == words.len(),
        forall|i: int| 0 <= i < vectors.len() ==> (#[trigger] vectors[i]).len() == dim,
        forall|i: int| 0 <= i < words.len() ==> valid_utf8(#[trigger] words[i]) && !words[i].contains(SPACE),
        0 <= k < words.len(),
        0 <= cut < 4 * dim,
    ensures
        ({
            let at = header_bytes(words.len(), dim).len() + entries_bytes(words.take(k), vectors.take(k)).len()
                + words[k].len() + 1 + cut;
            load_spec(file_bytes(words, vectors, dim).take(at)) == Err::<
                (Seq<Seq<char>>, Seq<Seq<u32>>, nat),
                LoadError,
            >(LoadError::TruncatedDataError)
        }),
{
    let n = words.len();
    let head = header_bytes(n, dim);
    let all = entries_bytes(words, vectors);
    let full = file_bytes(words, vectors, dim);
    let before = entries_bytes(words.take(k), vectors.take(k));
    let upto = entries_bytes(words.take(k + 1), vectors.take(k + 1));
    let e = entry_bytes(words[k], vectors[k]);
    let w = words[k];
    let body = head.len() as int;
    let pos = body + before.len();
    let sep = pos + w.len();
    let at = sep + 1 + cut;
    let data = full.take(at);
    assert(full == head + all);
    lemma_vector_bytes(vectors[k]);
    lemma_entries_prefix_bytes(words, vectors, k + 1);
    assert(words.take(k + 1).drop_last() =~= words.take(k));
    assert(vectors.take(k + 1).drop_last() =~= vectors.take(k));
    assert(upto == before + e);
    assert(at < body + upto.len());
    assert forall|t: int| 0 <= t < e.len() && pos + t < at implies data[pos + t] == e[t] by {
        assert(all.subrange(0, upto.len() as int)[before.len() + t] == upto[before.len() + t]);
    }
    // the header and the entries before `k` are intact
    assert(data.subrange(0, head.len() as int) =~= head);
    lemma_header_round_trip(data, n, dim);
    lemma_entries_prefix_bytes(words.take(k + 1), vectors.take(k + 1), k);
    assert(words.take(k + 1).take(k) =~= words.take(k));
    assert(vectors.take(k + 1).take(k) =~= vectors.take(k));
    assert(data.subrange(body, body + before.len()) =~= before) by {
        assert forall|t: int| 0 <= t < before.len() implies data.subrange(body, body + before.len())[t] == before[t] by {
            assert(all.subrange(0, upto.len() as int)[t] == upto[t]);
            assert(upto.subrange(0, before.len() as int)[t] == before[t]);
        }
    }
    let wk = words.take(k);
    let vk = vectors.take(k);
    assert forall|i: int| 0 <= i < vk.len() implies (#[trigger] vk[i]).len() == dim by {
        assert(vk[i] == vectors[i]);
    }
    assert forall|i: int| 0 <= i < wk.len() implies valid_utf8(#[trigger] wk[i]) && !wk[i].contains(SPACE) by {
        assert(wk[i] == words[i]);
    }
    lemma_entries_round_trip(wk, vk, dim, data, body, n, k as nat);
    assert(wk.take(k) =~= wk);
    assert(vk.take(k) =~= vk);
    // entry `k` has its word but not its whole vector
    assert forall|i: int| pos <= i < sep implies data[i] != SPACE by {
        assert(data[i] == e[i - pos]);
        assert(e[i - pos] == w[i - pos]);
        if data[i] == SPACE {
            assert(w.contains(SPACE));
        }
    }
    assert(data[sep] == e[w.len() as int]);
    lemma_find_at(data, pos, sep, data.len() as int, SPACE);
    assert(data.subrange(pos, sep) =~= w) by {
        assert forall|t: int| 0 <= t < w.len() implies data.subrange(pos, sep)[t] == w[t] by {
            assert(data[pos + t] == e[t]);
        }
    }
    assert(entry_at(data, pos, dim, k + 1 == n) == Err::<(Seq<char>, Seq<u32>, int), LoadError>(
        LoadError::TruncatedDataError,
    ));
    lemma_entries_error_persists(data, body, (k + 1) as nat, n, n, dim);
}

/// A stream with no header line, or whose header line holds a byte that is
/// neither a digit nor a space, fails to load with `FormatError`.
pub proof fn lemma_bad_header(data: Seq<u8>, i: int)
    requires
        find_in(data, 0, data.len() as int, NEWLINE) matches Some(end) ==> 0 <= i < end && !is_digit(data[i])
            && data[i] != SPACE,
    ensures
        load_spec(data) == Err::<(Seq<Seq<char>>, Seq<Seq<u32>>, nat), LoadError>(LoadError::FormatError),
{
    lemma_find_in(data, 0, data.len() as int, NEWLINE);
    if let Some(end) = find_in(data, 0, data.len() as int, NEWLINE) {
        lemma_find_in(data, 0, end, SPACE);
        if let Some(sep) = find_in(data, 0, end, SPACE) {
            if i < sep {
                assert(!is_digit(data.subrange(0, sep)[i]));
            } else {
                assert(!is_digit(data.subrange(sep + 1, end)[i - sep - 1]));
            }
        }
    }
}

/// Relies on `String::from_utf8`: it accepts exactly the valid UTF-8 byte
/// strings, and the text it returns is what those bytes encode.
#[verifier::external_body]
fn text_from_utf8(bytes: Vec<u8>) -> (r: Option<String>)
    ensures
        r is Some <==> valid_utf8(bytes@),
        r matches Some(t) ==> t@ == decode_utf8(bytes@),
{
    String::from_utf8(bytes).ok()
}

/// Reads `dim` little-endian components from `start` on, or `None` where the
/// data ends first.
fn read_vector(data: &[u8], start: usize, dim: usize) -> (r: Option<Vec<u32>>)
    requires
        start <= data@.len(),
    ensures
        r is Some <==> start + 4 * dim <= data@.len(),
        r matches Some(v) ==> v@ == vector_at(data@, start as int, dim as nat),
{
    let mut v: Vec<u32> = Vec::new();
    let mut p: usize = start;
    let mut j: usize = 0;
    while j < dim
        invariant
            start <= p <= data@.len(),
            j <= dim,
            p == start + 4 * j,
            v@ == vector_at(data@, start as int, j as nat),
        decreases dim - j,
    {
        if data.len() - p < 4 {
            return None;
        }
        let c = u32_from_le_bytes(slice_subrange(data, p, p + 4));
        v.push(c);
        assert(v@ =~= vector_at(data@, start as int, (j + 1) as nat));
        p = p + 4;
        j = j + 1;
    }
    Some(v)
}

/// Reads the entry at `pos`, as `entry_at` describes it.
pub fn read_entry(data: &[u8], pos: usize, dim: usize, last: bool) -> (r: Result<
    (String, Vec<u32>, usize),
    LoadError,
>)
    requires
        pos <= data@.len(),
    ensures
        match (r, entry_at(data@, pos as int, dim as nat, last)) {
            (Ok((w, v, next)), Ok((sw, sv, snext))) => w@ == sw && v@ == sv && next == snext,
            (Err(e), Err(se)) => e == se,
            _ => false,
        },
{
    let sep = match find_byte(data, pos, data.len(), SPACE) {
        None => return Err(LoadError::FormatError),
        Some(s) => s,
    };
    proof {
        lemma_find_in(data@, pos as int, data@.len() as int, SPACE);
    }
    let mut word_bytes: Vec<u8> = Vec::new();
    let mut i: usize = pos;
    while i < sep
        invariant
            pos <= i <= sep < data@.len(),
            word_bytes@ == data@.subrange(pos as int, i as int),
        decreases sep - i,
    {
        word_bytes.push(data[i]);
        assert(word_bytes@ =~= data@.subrange(pos as int, i + 1));
        i = i + 1;
    }
    let word = match text_from_utf8(word_bytes) {
        None => return Err(LoadError::FormatError),
        Some(w) => w,
    };
    let vector = match read_vector(data, sep + 1, dim) {
        None => return Err(LoadError::TruncatedDataError),
        Some(v) => v,
    };
    let stop = sep + 1 + 4 * dim;
    if stop < data.len() {
        Ok((word, vector, stop + 1))
    } else if last {
        Ok((word, vector, stop))
    } else {
        Err(LoadError::TruncatedDataError)
    }
}

} // verus!
