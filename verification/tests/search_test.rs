use mbox_viewer::search::memory_cosinus::{MemoryCosinus, TopHits};
use mbox_viewer::search::{MailSearchRepository, SearchError, SearchResult};

fn cosine_similarity(a: &[f32], b: &[f32]) -> f32 {
    let dot_product: f32 = a.iter().zip(b.iter()).map(|(x, y)| x * y).sum();
    let norm_a: f32 = a.iter().map(|x| x * x).sum::<f32>().sqrt();
    let norm_b: f32 = b.iter().map(|x| x * x).sum::<f32>().sqrt();
    if norm_a == 0.0 || norm_b == 0.0 {
        return 0.0;
    }
    dot_product / (norm_a * norm_b)
}

fn score_of(a: &Vec<f32>, b: &Vec<f32>) -> i64 {
    (cosine_similarity(a, b) as f64 * 1_000_000.0).round() as i64
}

fn hit(id: usize, score: i64) -> SearchResult<usize> {
    SearchResult { id, score }
}

fn pairs(hits: &[SearchResult<usize>]) -> Vec<(usize, i64)> {
    hits.iter().map(|h| (h.id, h.score)).collect()
}

#[test]
fn test_index_and_search() {
    let mut repo = MemoryCosinus::new(score_of);
    repo.index(1, vec![1.0, 0.0]).unwrap();
    repo.index(2, vec![0.0, 1.0]).unwrap();
    repo.index(3, vec![1.0, 1.0]).unwrap();

    let results = repo.search(&vec![1.0, 0.0], 2).unwrap();
    let ids: Vec<usize> = results.iter().map(|r| r.id).collect();
    assert!(ids.contains(&1));
    assert!(ids.contains(&3));
    assert_eq!(results.len(), 2);
    assert_eq!(pairs(&results), vec![(1, 1_000_000), (3, 707_107)]);
}

#[test]
fn test_search_with_zero_vector() {
    let mut repo = MemoryCosinus::new(score_of);
    repo.index(1, vec![0.0, 0.0]).unwrap();
    let results = repo.search(&vec![1.0, 0.0], 1).unwrap();
    assert_eq!(results[0].score, 0);
}

#[test]
fn the_last_vector_indexed_under_an_identifier_wins() {
    let mut repo = MemoryCosinus::new(score_of);
    repo.index(7, vec![0.0, 1.0]).unwrap();
    repo.index(7, vec![1.0, 0.0]).unwrap();
    let results = repo.search(&vec![1.0, 0.0], 5).unwrap();
    assert_eq!(pairs(&results), vec![(7, 1_000_000)]);
}

#[test]
fn a_search_is_the_head_of_the_full_ranking() {
    let mut repo = MemoryCosinus::new(|a: &i64, b: &i64| -(a - b).abs());
    let stored: Vec<i64> = vec![50, -3, 17, 88, 42, 41, 0, 99, 43, 12, 7, 64];
    for (id, value) in stored.iter().enumerate() {
        repo.index(id, *value).unwrap();
    }
    let mut full: Vec<(usize, i64)> =
        stored.iter().enumerate().map(|(id, v)| (id, -(42 - v).abs())).collect();
    full.sort_by(|a, b| b.1.cmp(&a.1));
    for k in [0, 1, 3, 5, 12, 20] {
        let results = repo.search(&42, k).unwrap();
        assert_eq!(results.len(), k.min(stored.len()));
        let scores: Vec<i64> = results.iter().map(|r| r.score).collect();
        let expected: Vec<i64> = full.iter().take(k).map(|f| f.1).collect();
        assert_eq!(scores, expected);
        for r in &results {
            assert_eq!(r.score, -(42 - stored[r.id]).abs());
        }
        let mut ids: Vec<usize> = results.iter().map(|r| r.id).collect();
        ids.sort();
        ids.dedup();
        assert_eq!(ids.len(), results.len());
    }
    assert_eq!(repo.search(&42, 3).unwrap().iter().map(|r| r.id).collect::<Vec<_>>()[0], 4);
}

#[test]
fn an_empty_index_has_no_hit() {
    let repo = MemoryCosinus::new(|a: &i64, b: &i64| a * b);
    assert!(repo.search(&1, 5).unwrap().is_empty());
}

fn offered(limit: usize, candidates: &[(usize, i64)]) -> Vec<(usize, i64)> {
    let mut top = TopHits::new(limit);
    for (id, score) in candidates {
        top.offer(hit(*id, *score));
    }
    pairs(&top.into_hits())
}

#[test]
fn an_offer_is_taken_while_there_is_room() {
    assert_eq!(offered(3, &[(1, 10), (2, 30), (3, 20)]), vec![(2, 30), (3, 20), (1, 10)]);
    assert_eq!(offered(3, &[(1, 10)]), vec![(1, 10)]);
}

#[test]
fn a_full_ranking_only_yields_to_a_strictly_better_offer() {
    let first = [(2, 30), (3, 20), (1, 10)];
    let with = |more: &[(usize, i64)]| {
        let mut all = first.to_vec();
        all.extend_from_slice(more);
        offered(3, &all)
    };
    assert_eq!(with(&[(4, 10)]), vec![(2, 30), (3, 20), (1, 10)]);
    assert_eq!(with(&[(4, 10), (5, 11)]), vec![(2, 30), (3, 20), (5, 11)]);
    assert_eq!(with(&[(4, 10), (5, 11), (6, 40)]), vec![(6, 40), (2, 30), (3, 20)]);
    assert_eq!(with(&[(4, 10), (5, 11), (6, 40), (7, 5)]), vec![(6, 40), (2, 30), (3, 20)]);
}

#[test]
fn a_ranking_of_no_room_takes_nothing() {
    assert!(offered(0, &[(1, 10)]).is_empty());
}

#[test]
fn search_errors_render_as_their_names() {
    assert_eq!(SearchError::ModelNotFound.to_string(), "ModelNotFound");
    assert_eq!(SearchError::Error.to_string(), "Error");
}
