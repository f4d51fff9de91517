use mbox_viewer::embedding::local::{assemble, split_tasks, EmbeddingResult, EmbeddingTask};
use mbox_viewer::embedding::{single_vector, EmbeddingError};

fn batch(len: usize) -> Vec<String> {
    (0..len).map(|i| format!("text {}", i)).collect()
}

fn stub_vector(text: &str) -> Vec<u32> {
    text.bytes().map(|b| b as u32).collect()
}

fn work(task: &EmbeddingTask) -> EmbeddingResult<Vec<u32>> {
    EmbeddingResult { idx: task.idx, vectors: task.contents.iter().map(|t| stub_vector(t)).collect() }
}

fn orchestrate(texts: &[String], workers: usize, order: &[usize]) -> Result<Vec<Vec<u32>>, EmbeddingError> {
    let borrowed: Vec<&str> = texts.iter().map(|t| t.as_str()).collect();
    let tasks = split_tasks(&borrowed, workers);
    let sizes: Vec<usize> = tasks.iter().map(|t| t.contents.len()).collect();
    let mut results = Vec::new();
    for turn in order {
        if *turn < tasks.len() {
            results.push(work(&tasks[*turn]));
        }
    }
    assemble(results, &sizes)
}

fn chunk_sizes(len: usize, workers: usize) -> Vec<usize> {
    let texts = batch(len);
    let borrowed: Vec<&str> = texts.iter().map(|t| t.as_str()).collect();
    split_tasks(&borrowed, workers).iter().map(|t| t.contents.len()).collect()
}

#[test]
fn chunks_are_cut_at_the_rounded_up_share() {
    assert_eq!(chunk_sizes(0, 4), Vec::<usize>::new());
    assert_eq!(chunk_sizes(1, 4), vec![1]);
    assert_eq!(chunk_sizes(4, 4), vec![1, 1, 1, 1]);
    assert_eq!(chunk_sizes(5, 4), vec![2, 2, 1]);
    assert_eq!(chunk_sizes(600, 4), vec![150, 150, 150, 150]);
    assert_eq!(chunk_sizes(7, 1), vec![7]);
    assert_eq!(chunk_sizes(10, 3), vec![4, 4, 2]);
    assert_eq!(chunk_sizes(10, 0), Vec::<usize>::new());
}

#[test]
fn tasks_hold_the_texts_in_order_under_their_positions() {
    let texts = batch(5);
    let borrowed: Vec<&str> = texts.iter().map(|t| t.as_str()).collect();
    let tasks = split_tasks(&borrowed, 4);
    assert_eq!(tasks.len(), 3);
    for (position, task) in tasks.iter().enumerate() {
        assert_eq!(task.idx, position);
    }
    let joined: Vec<String> = tasks.iter().flat_map(|t| t.contents.clone()).collect();
    assert_eq!(joined, texts);
}

#[test]
fn an_orchestrated_batch_keeps_length_and_order_whatever_the_order_of_completion() {
    let workers = 4;
    for len in [0, 1, workers, workers + 1] {
        let texts = batch(len);
        let expected: Vec<Vec<u32>> = texts.iter().map(|t| stub_vector(t)).collect();
        for order in [[0, 1, 2, 3], [3, 2, 1, 0], [2, 0, 3, 1]] {
            let vectors = orchestrate(&texts, workers, &order).unwrap();
            assert_eq!(vectors.len(), len);
            assert_eq!(vectors, expected);
        }
    }
}

#[test]
fn a_missing_chunk_fails_the_batch() {
    let texts = batch(5);
    assert_eq!(orchestrate(&texts, 4, &[0, 2]), Err(EmbeddingError::MissingResultError));
    assert_eq!(orchestrate(&texts, 4, &[0, 1, 1]), Err(EmbeddingError::MissingResultError));
    assert_eq!(orchestrate(&texts, 4, &[0, 1, 2, 2]), Err(EmbeddingError::MissingResultError));
    let stray = vec![EmbeddingResult { idx: 9, vectors: vec![vec![1u32]] }];
    assert_eq!(assemble(stray, &[1]), Err(EmbeddingError::MissingResultError));
}

#[test]
fn a_chunk_of_the_wrong_size_fails_the_batch() {
    let results = vec![
        EmbeddingResult { idx: 1, vectors: vec![vec![3u32]] },
        EmbeddingResult { idx: 0, vectors: vec![vec![1u32]] },
    ];
    assert_eq!(assemble(results, &[2, 1]), Err(EmbeddingError::EncodeError));
    let results = vec![
        EmbeddingResult { idx: 1, vectors: vec![vec![3u32]] },
        EmbeddingResult { idx: 0, vectors: vec![vec![1u32], vec![2u32]] },
    ];
    assert_eq!(assemble(results, &[2, 1]), Ok(vec![vec![1u32], vec![2u32], vec![3u32]]));
}

#[test]
fn the_vector_of_a_line_is_the_last_of_its_batch() {
    assert_eq!(single_vector(Ok(vec![1, 2, 3])), Ok(3));
    assert_eq!(single_vector::<u8>(Ok(Vec::new())), Err(EmbeddingError::MissingResultError));
    assert_eq!(single_vector::<u8>(Err(EmbeddingError::ModelNotFound)), Err(EmbeddingError::EncodeError));
}

#[test]
fn embedding_errors_render_as_their_names() {
    assert_eq!(EmbeddingError::ModelNotFound.to_string(), "ModelNotFound");
    assert_eq!(EmbeddingError::Error.to_string(), "Error");
    assert_eq!(EmbeddingError::EncodeError.to_string(), "EncodeError");
    assert_eq!(EmbeddingError::MissingResultError.to_string(), "MissingResultError");
}
