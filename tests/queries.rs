use word2vec::{order_key, top_ranked, Neighbor, QueryError, WordVector};

fn file(entries: &[(&str, Vec<f32>)]) -> Vec<u8> {
    let dim = entries[0].1.len();
    let mut out = format!("{} {}\n", entries.len(), dim).into_bytes();
    for (word, vector) in entries {
        out.extend_from_slice(word.as_bytes());
        out.push(b' ');
        for x in vector {
            out.extend_from_slice(&x.to_le_bytes());
        }
        out.push(b'\n');
    }
    out
}

fn dot(a: &[u32], b: &[f32]) -> f32 {
    a.iter().zip(b).map(|(x, y)| f32::from_bits(*x) * y).sum()
}

fn scores_against(m: &WordVector, target: &[f32]) -> Vec<u32> {
    (0..m.len()).map(|i| dot(m.vector(i), target).to_bits()).collect()
}

fn vector(m: &WordVector, word: &str) -> Vec<f32> {
    m.vector_of(word).unwrap().iter().map(|x| f32::from_bits(*x)).collect()
}

fn words(r: &[Neighbor]) -> Vec<&str> {
    r.iter().map(|n| n.word.as_str()).collect()
}

fn animals() -> WordVector {
    let data = file(&[("cat", vec![1.0, 0.0]), ("dog", vec![0.0, 1.0]), ("fish", vec![0.7071, 0.7071])]);
    WordVector::load_from_binary(&data).unwrap()
}

fn royals() -> WordVector {
    let data = file(&[
        ("king", vec![2.0, 0.0, 1.0]),
        ("queen", vec![0.9, 0.1, 0.8]),
        ("man", vec![0.1, 0.9, 0.1]),
        ("woman", vec![0.1, 0.1, 0.9]),
        ("apple", vec![-0.5, 0.0, 0.0]),
    ]);
    WordVector::load_from_binary(&data).unwrap()
}

#[test]
fn nearest_cat_gives_fish_then_dog() {
    let m = animals();
    let scores = scores_against(&m, &vector(&m, "cat"));
    let r = m.nearest("cat", &scores, 2).unwrap();
    assert_eq!(words(&r), vec!["fish", "dog"]);
    assert!((f32::from_bits(r[0].score) - 0.7071).abs() < 1e-6);
    assert_eq!(f32::from_bits(r[1].score), 0.0);
    assert_eq!(r[0].index, 2);
    assert_eq!(r[1].index, 1);
}

#[test]
fn nearest_never_returns_the_query_word() {
    let m = animals();
    for w in ["cat", "dog", "fish"] {
        let scores = scores_against(&m, &vector(&m, w));
        let r = m.nearest(w, &scores, 10).unwrap();
        assert_eq!(r.len(), 2);
        assert!(r.iter().all(|n| n.word != w));
    }
}

#[test]
fn nearest_unknown_word() {
    let m = animals();
    let scores = vec![0u32; 3];
    assert_eq!(m.nearest("bird", &scores, 1), Err(QueryError::UnknownWordError("bird".to_string())));
}

#[test]
fn nearest_with_zero_count_is_empty() {
    let m = animals();
    let scores = scores_against(&m, &vector(&m, "dog"));
    assert_eq!(m.nearest("dog", &scores, 0).unwrap(), vec![]);
}

fn analogy_target(m: &WordVector, pos: &[&str], neg: &[&str]) -> Vec<f32> {
    let mut mean = vec![0.0f32; m.dimension()];
    for (list, sign) in [(pos, 1.0f32), (neg, -1.0f32)] {
        for w in list {
            for (acc, x) in mean.iter_mut().zip(vector(m, w)) {
                *acc += sign * x;
            }
        }
    }
    let count = (pos.len() + neg.len()) as f32;
    mean.iter().map(|x| x / count).collect()
}

fn strings(v: &[&str]) -> Vec<String> {
    v.iter().map(|s| s.to_string()).collect()
}

#[test]
fn analogy_excludes_query_words() {
    let m = royals();
    let target = analogy_target(&m, &["king", "woman"], &["man"]);
    let scores = scores_against(&m, &target);
    let best = (0..m.len()).max_by(|a, b| f32::from_bits(scores[*a]).total_cmp(&f32::from_bits(scores[*b]))).unwrap();
    assert_eq!(m.word(best).as_str(), "king");
    let r = m.analogy(&strings(&["king", "woman"]), &strings(&["man"]), &scores, 1).unwrap();
    assert_eq!(words(&r), vec!["queen"]);
}

#[test]
fn analogy_results_avoid_every_query_word() {
    let m = royals();
    let pos = ["king", "woman"];
    let neg = ["man"];
    let scores = scores_against(&m, &analogy_target(&m, &pos, &neg));
    let r = m.analogy(&strings(&pos), &strings(&neg), &scores, 10).unwrap();
    assert_eq!(words(&r), vec!["queen", "apple"]);
    for n in &r {
        assert!(!pos.contains(&n.word.as_str()) && !neg.contains(&n.word.as_str()));
    }
}

#[test]
fn analogy_empty_query() {
    let m = royals();
    let scores = vec![0u32; m.len()];
    assert_eq!(m.analogy(&vec![], &vec![], &scores, 3), Err(QueryError::EmptyQueryError));
}

#[test]
fn analogy_names_first_unknown_word() {
    let m = royals();
    let scores = vec![0u32; m.len()];
    let r = m.analogy(&strings(&["king", "prince"]), &strings(&["duke"]), &scores, 3);
    assert_eq!(r, Err(QueryError::UnknownWordError("prince".to_string())));
    let r = m.analogy(&strings(&[]), &strings(&["man", "duke"]), &scores, 3);
    assert_eq!(r, Err(QueryError::UnknownWordError("duke".to_string())));
}

#[test]
fn resolve_gives_positions() {
    let m = royals();
    assert_eq!(m.resolve(&strings(&["woman", "king"])), Ok(vec![3, 0]));
    assert_eq!(m.resolve(&strings(&["king", "x", "y"])), Err(QueryError::UnknownWordError("x".to_string())));
}

#[test]
fn duplicates_of_a_query_word_are_excluded_too() {
    let data = file(&[("a", vec![1.0]), ("b", vec![0.5]), ("a", vec![0.9])]);
    let m = WordVector::load_from_binary(&data).unwrap();
    let scores = scores_against(&m, &[1.0]);
    let r = m.nearest("a", &scores, 5).unwrap();
    assert_eq!(words(&r), vec!["b"]);
}

fn f(x: f32) -> u32 {
    x.to_bits()
}

#[test]
fn ranking_sorts_by_score_then_position() {
    let scores = vec![f(0.5), f(2.0), f(-1.0), f(2.0), f(0.0), f(-0.0)];
    let none = vec![false; 6];
    assert_eq!(top_ranked(&scores, &none, 6), vec![1, 3, 0, 4, 5, 2]);
    assert_eq!(top_ranked(&scores, &none, 3), vec![1, 3, 0]);
}

#[test]
fn ranking_skips_excluded_and_returns_fewer_when_pool_is_small() {
    let scores = vec![f(3.0), f(1.0), f(2.0), f(-4.0)];
    let excluded = vec![true, false, true, false];
    assert_eq!(top_ranked(&scores, &excluded, 10), vec![1, 3]);
    assert_eq!(top_ranked(&scores, &excluded, 1), vec![1]);
    assert_eq!(top_ranked(&scores, &vec![true; 4], 2), Vec::<usize>::new());
    assert_eq!(top_ranked(&vec![], &vec![], 2), Vec::<usize>::new());
}

#[test]
fn ranking_orders_negative_scores() {
    let scores = vec![f(-3.0), f(-0.5), f(-10.0), f(f32::NEG_INFINITY), f(f32::INFINITY)];
    assert_eq!(top_ranked(&scores, &vec![false; 5], 5), vec![4, 1, 0, 2, 3]);
}

#[test]
fn order_key_values() {
    assert_eq!(order_key(0), 0);
    assert_eq!(order_key(0x8000_0000), 0);
    assert_eq!(order_key(f(1.0)), 0x3f80_0000);
    assert_eq!(order_key(f(-1.0)), -0x3f80_0000);
    assert!(order_key(f(-2.0)) < order_key(f(-1.0)));
    assert!(order_key(f(0.25)) < order_key(f(0.5)));
}
