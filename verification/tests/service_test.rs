use mbox_viewer::embedding::{single_vector, Embedder, EmbeddingError};
use mbox_viewer::mailbox::{
    emails_to_ids_and_bodies_if_body_exists, hydrate, index_batch, take_batch, Email,
    MailboxService, MailboxServiceError, SearchFailure,
};
use mbox_viewer::search::memory_cosinus::MemoryCosinus;
use mbox_viewer::search::{MailSearchRepository, SearchResult};
use mbox_viewer::storage::file::MboxFile;
use mbox_viewer::storage::{MailStorageRepository, MailboxError};

/// Counts the letters of a text: a stand-in for a model.
struct LetterCounts {
    fail_batches: bool,
    fail_lines: bool,
}

fn letter_counts(text: &str) -> Vec<f32> {
    let mut counts = vec![0.0f32; 26];
    for b in text.bytes() {
        let lower = b.to_ascii_lowercase();
        if lower.is_ascii_lowercase() {
            counts[(lower - b'a') as usize] += 1.0;
        }
    }
    counts
}

impl Embedder for LetterCounts {
    type Vector = Vec<f32>;

    fn embed(&self, text: &[&str]) -> Result<Vec<Vec<f32>>, EmbeddingError> {
        if self.fail_batches {
            Err(EmbeddingError::EncodeError)
        } else {
            Ok(text.iter().map(|t| letter_counts(t)).collect())
        }
    }

    fn embed_line(&self, text: &str) -> Result<Vec<f32>, EmbeddingError> {
        if self.fail_lines {
            Err(EmbeddingError::ModelNotFound)
        } else {
            single_vector(self.embed(&[text]))
        }
    }
}

fn similarity(a: &Vec<f32>, b: &Vec<f32>) -> i64 {
    let dot: f32 = a.iter().zip(b.iter()).map(|(x, y)| x * y).sum();
    let norm_a: f32 = a.iter().map(|x| x * x).sum::<f32>().sqrt();
    let norm_b: f32 = b.iter().map(|x| x * x).sum::<f32>().sqrt();
    if norm_a == 0.0 || norm_b == 0.0 {
        0
    } else {
        ((dot / (norm_a * norm_b)) as f64 * 1_000_000.0).round() as i64
    }
}

fn archive() -> Vec<u8> {
    let bodies = [
        "zzzz zzzz zzzz",
        "a software update is ready",
        "lunch at noon",
        "update your software today",
        "qqqq",
        "software software update",
        "the update of the software was a success",
        "xxxx yyyy",
    ];
    let mut source = String::new();
    for (n, body) in bodies.iter().enumerate() {
        source.push_str(&format!("From sender{}@example.com Wed Jan  1 00:00:00 2020\n", n));
        source.push_str(&format!("Subject: message {}\n", n));
        source.push_str(&format!("From: sender{}@example.com\n", n));
        source.push_str("Date: Wed, 1 Jan 2020 00:00:00 +0000\n");
        source.push_str("\n");
        source.push_str(body);
        source.push_str("\n");
    }
    source.push_str("From nobody@example.com Wed Jan  1 00:00:00 2020\n");
    source.push_str("Subject: no body\n");
    source.push_str("From: nobody@example.com\n");
    source.push_str("Date: Wed, 1 Jan 2020 00:00:00 +0000\n");
    source.into_bytes()
}

fn service(
    fail_batches: bool,
    fail_lines: bool,
) -> MailboxService<MboxFile, LetterCounts, fn(&Vec<f32>, &Vec<f32>) -> i64> {
    let measure: fn(&Vec<f32>, &Vec<f32>) -> i64 = similarity;
    MailboxService::new(
        MboxFile::new(archive()).unwrap(),
        MemoryCosinus::new(measure),
        LetterCounts { fail_batches, fail_lines },
    )
}

fn email(id: usize, text: Option<&str>, html: Option<&str>) -> Email<usize> {
    Email {
        id,
        from: "a@b".to_string(),
        datetime: (0, 0),
        subject: "s".to_string(),
        body_text: text.map(|t| t.to_string()),
        body_html: html.map(|t| t.to_string()),
    }
}

#[test]
fn indexing_then_searching_gives_five_ranked_messages_of_the_archive() {
    let mut mailbox = service(false, false);
    assert_eq!(mailbox.storage_repository.count_emails().unwrap(), 9);
    mailbox.index_emails();
    let found = mailbox.search_email("software update").unwrap();
    assert_eq!(found.len(), 5);
    for pair in found.windows(2) {
        assert!(pair[0].0 >= pair[1].0);
    }
    for (score, message) in &found {
        let stored = mailbox.storage_repository.get_email(&message.id).unwrap();
        assert_eq!(stored.subject, message.subject);
        assert_eq!(stored.body_text, message.body_text);
        assert_eq!(
            *score,
            similarity(&letter_counts("software update"), &letter_counts(stored.body_text.as_ref().unwrap()))
        );
    }
    let mut ids: Vec<usize> = found.iter().map(|f| f.1.id).collect();
    assert_eq!(ids[0], 5);
    ids.sort();
    assert_eq!(ids, vec![1, 2, 3, 5, 6]);
}

#[test]
fn a_message_without_a_body_is_not_indexed() {
    let mut mailbox = service(false, false);
    mailbox.index_emails();
    let all = mailbox.search_repository.search(&letter_counts("e"), 100).unwrap();
    let mut ids: Vec<usize> = all.iter().map(|h| h.id).collect();
    ids.sort();
    assert_eq!(ids, vec![0, 1, 2, 3, 4, 5, 6, 7]);
}

#[test]
fn a_failed_batch_is_left_out_and_the_call_returns() {
    let mut mailbox = service(true, false);
    mailbox.index_emails();
    assert!(mailbox.search_repository.search(&letter_counts("e"), 100).unwrap().is_empty());
    assert_eq!(mailbox.search_embedded(Ok(letter_counts("software"))).unwrap().len(), 0);
}

#[test]
fn a_request_that_cannot_be_embedded_fails_the_search() {
    let mut mailbox = service(false, true);
    mailbox.index_emails();
    assert_eq!(
        mailbox.search_email("software").err(),
        Some(SearchFailure::Embedding(EmbeddingError::ModelNotFound))
    );
    assert_eq!(
        mailbox.search_embedded(Err(EmbeddingError::EncodeError)).err(),
        Some(SearchFailure::Embedding(EmbeddingError::EncodeError))
    );
}

#[test]
fn a_hit_that_does_not_resolve_fails_the_search() {
    let mut mailbox = service(false, false);
    mailbox.search_repository.index(1, letter_counts("software")).unwrap();
    mailbox.search_repository.index(40, letter_counts("software update")).unwrap();
    assert_eq!(
        mailbox.search_email("software update").err(),
        Some(SearchFailure::Storage(MailboxError::EmailNotFound))
    );
    let storage = MboxFile::new(archive()).unwrap();
    let hits = vec![SearchResult { id: 2, score: 9 }, SearchResult { id: 0, score: 4 }];
    let found = hydrate(&storage, &hits).unwrap();
    assert_eq!(found.len(), 2);
    assert_eq!((found[0].0, found[0].1.id), (9, 2));
    assert_eq!(found[0].1.subject, "message 2");
    assert_eq!((found[1].0, found[1].1.id), (4, 0));
}

#[test]
fn only_messages_with_a_body_are_embedded_and_plain_text_comes_first() {
    let buf = vec![
        email(4, Some("plain"), Some("<p>html</p>")),
        email(5, None, None),
        email(6, None, Some("<b>only html</b>")),
        email(7, Some("only plain"), None),
    ];
    let (ids, bodies) = emails_to_ids_and_bodies_if_body_exists(buf);
    assert_eq!(ids, vec![4, 6, 7]);
    assert_eq!(bodies, vec!["plain", "<b>only html</b>", "only plain"]);
    let (ids, bodies) = emails_to_ids_and_bodies_if_body_exists(Vec::new());
    assert!(ids.is_empty() && bodies.is_empty());
}

#[test]
fn a_batch_goes_in_whole_or_not_at_all() {
    let measure: fn(&i64, &i64) -> i64 = |a, b| -(a - b).abs();
    let mut index = MemoryCosinus::new(measure);
    assert!(index_batch(&mut index, vec![1, 2, 3], Ok(vec![10, 20, 30])));
    assert_eq!(index.search(&20, 1).unwrap()[0].id, 2);
    assert!(!index_batch(&mut index, vec![4, 5], Ok(vec![40])));
    assert!(!index_batch(&mut index, vec![6], Err(EmbeddingError::EncodeError)));
    assert_eq!(index.search(&40, 10).unwrap().len(), 3);
    assert!(index_batch(&mut index, vec![9, 9], Ok(vec![100, 200])));
    let best = index.search(&100, 1).unwrap();
    assert_eq!((best[0].id, best[0].score), (9, 0));
}

#[test]
fn service_errors_render_as_their_names() {
    assert_eq!(MailboxServiceError::InitError.to_string(), "InitError");
    assert_eq!(MailboxServiceError::SearchError.to_string(), "SearchError");
}

#[test]
fn batches_take_the_messages_that_resolve_in_order() {
    let storage = MboxFile::new(archive()).unwrap();
    let (first, next) = take_batch(&storage, 0, 4, 9);
    assert_eq!(first.iter().map(|e| e.id).collect::<Vec<_>>(), vec![0, 1, 2, 3]);
    assert_eq!(next, 4);
    let (second, next) = take_batch(&storage, next, 4, 9);
    assert_eq!(second.iter().map(|e| e.id).collect::<Vec<_>>(), vec![4, 5, 6, 7]);
    assert_eq!(next, 8);
    let (third, next) = take_batch(&storage, next, 4, 9);
    assert_eq!(third.iter().map(|e| e.id).collect::<Vec<_>>(), vec![8]);
    assert_eq!(next, 9);
    let (last, next) = take_batch(&storage, next, 4, 9);
    assert!(last.is_empty());
    assert_eq!(next, 9);
    let (none, next) = take_batch(&storage, 2, 0, 9);
    assert!(none.is_empty());
    assert_eq!(next, 2);
    let (short, next) = take_batch(&storage, 2, 4, 5);
    assert_eq!(short.iter().map(|e| e.id).collect::<Vec<_>>(), vec![2, 3, 4]);
    assert_eq!(next, 5);
    let (beyond, next) = take_batch(&storage, 7, 4, 12);
    assert_eq!(beyond.iter().map(|e| e.id).collect::<Vec<_>>(), vec![7, 8]);
    assert_eq!(next, 12);
}
