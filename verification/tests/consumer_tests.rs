use booklog::book::{Book, BookEvent};
use booklog::consumer::{next_phase, ConsumerPhase, ConsumerSignal, TailingConsumer};
use booklog::repo::{BookRepository, EventLog};

fn page_contents(observed: &[BookEvent]) -> Vec<String> {
    let mut out = Vec::new();
    for ev in observed {
        if let BookEvent::PageAdded(p) = ev {
            out.push(p.content.clone());
        }
    }
    out
}

#[test]
fn consumer_observes_the_whole_batch_then_commits() {
    let mut repo = BookRepository::new();
    let mut book = Book::new("42".to_owned(), "Joe".to_owned()).unwrap();
    book.add_page("Page #1".to_owned());
    repo.save(&mut book);
    let mut consumer = TailingConsumer::new();
    let n = consumer.poll_cycle(&mut repo.log).unwrap();
    assert_eq!(n, 2);
    assert_eq!(consumer.observed.len(), 2);
    assert_eq!(repo.log.committed_position(), 2);
    assert_eq!(page_contents(&consumer.observed), vec!["Page #1".to_owned()]);
}

#[test]
fn polling_an_empty_log_observes_nothing() {
    let mut log = EventLog::new();
    let mut consumer = TailingConsumer::new();
    let n = consumer.poll_cycle(&mut log).unwrap();
    assert_eq!(n, 0);
    assert!(consumer.observed.is_empty());
    assert_eq!(log.committed_position(), 0);
}

#[test]
fn committed_batches_are_not_redelivered() {
    let mut repo = BookRepository::new();
    let mut book = Book::new("42".to_owned(), "Joe".to_owned()).unwrap();
    repo.save(&mut book);
    let mut consumer = TailingConsumer::new();
    consumer.poll_cycle(&mut repo.log).unwrap();
    let n = consumer.poll_cycle(&mut repo.log).unwrap();
    assert_eq!(n, 0);
    assert_eq!(consumer.observed.len(), 1);
}

#[test]
fn crash_before_commit_redelivers_the_batch() {
    let mut repo = BookRepository::new();
    let mut book = Book::new("42".to_owned(), "Joe".to_owned()).unwrap();
    book.add_page("Page #1".to_owned());
    repo.save(&mut book);

    // First consumer processes the batch but crashes before committing:
    // the log still exposes the uncommitted position.
    let mut first = TailingConsumer::new();
    let batch = repo.log.poll();
    first.handle_batch(&batch).unwrap();
    assert_eq!(first.observed.len(), 2);
    assert_eq!(repo.log.committed_position(), 0);
    drop(first);

    // A restarted consumer re-receives and re-applies the same batch.
    let mut restarted = TailingConsumer::new();
    let n = restarted.poll_cycle(&mut repo.log).unwrap();
    assert_eq!(n, 2);
    assert_eq!(restarted.observed.len(), 2);
    assert_eq!(repo.log.committed_position(), 2);
}

#[test]
fn decode_failure_faults_and_commits_nothing() {
    let mut log = EventLog::new();
    log.append("{\"Shelved\":{\"id\":\"1\"}}".to_owned());
    let mut consumer = TailingConsumer::new();
    let r = consumer.poll_cycle(&mut log);
    assert!(r.is_err());
    assert!(consumer.faulted);
    assert_eq!(log.committed_position(), 0);
    assert!(consumer.observed.is_empty());
}

#[test]
fn decode_failure_keeps_what_came_before_it() {
    let mut log = EventLog::new();
    log.append("{\"PageAdded\":{\"content\":\"good\"}}".to_owned());
    log.append("not an event".to_owned());
    let mut consumer = TailingConsumer::new();
    let batch = log.poll();
    assert!(consumer.handle_batch(&batch).is_err());
    assert!(consumer.faulted);
    assert_eq!(page_contents(&consumer.observed), vec!["good".to_owned()]);
}

#[test]
fn phase_machine_walks_the_lawful_path() {
    let p = ConsumerPhase::Idle;
    let p = next_phase(p, ConsumerSignal::TimerElapsed);
    assert_eq!(p, ConsumerPhase::Polling);
    let p = next_phase(p, ConsumerSignal::BatchReceived);
    assert_eq!(p, ConsumerPhase::Processing);
    let p = next_phase(p, ConsumerSignal::BatchProcessed);
    assert_eq!(p, ConsumerPhase::Committing);
    let p = next_phase(p, ConsumerSignal::CommitConfirmed);
    assert_eq!(p, ConsumerPhase::Idle);
    let p = next_phase(p, ConsumerSignal::TimerElapsed);
    let p = next_phase(p, ConsumerSignal::BatchEmpty);
    assert_eq!(p, ConsumerPhase::Idle);
}

#[test]
fn phase_machine_faults_are_terminal() {
    let p = next_phase(ConsumerPhase::Committing, ConsumerSignal::CommitFailed);
    assert_eq!(p, ConsumerPhase::Faulted);
    let p = next_phase(p, ConsumerSignal::TimerElapsed);
    assert_eq!(p, ConsumerPhase::Faulted);
    let p = next_phase(ConsumerPhase::Processing, ConsumerSignal::DecodeFailed);
    assert_eq!(p, ConsumerPhase::Faulted);
    let p = next_phase(ConsumerPhase::Polling, ConsumerSignal::TransportFailed);
    assert_eq!(p, ConsumerPhase::Faulted);
}

#[test]
fn out_of_place_signals_fault_the_machine() {
    let p = next_phase(ConsumerPhase::Idle, ConsumerSignal::BatchReceived);
    assert_eq!(p, ConsumerPhase::Faulted);
    let p = next_phase(ConsumerPhase::Polling, ConsumerSignal::CommitConfirmed);
    assert_eq!(p, ConsumerPhase::Faulted);
}
