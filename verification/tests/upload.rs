use nyancache::error::Error;
use nyancache::models::DbPath;
use nyancache::upload::{Finalize, IncompleteUpload, PendingUploads};

fn record(id: &str) -> DbPath {
    let mut record = DbPath::default();
    record.id = id.to_string();
    record
}

#[test]
fn bytes_then_metadata_completes_the_pair() {
    let mut pending = PendingUploads::new();
    assert!(pending.add_incomplete("x.nar", IncompleteUpload::Nar).is_none());
    assert_eq!(pending.len(), 1);
    assert_eq!(pending.waiting("x.nar"), Some(false));
    let done = pending.add_incomplete("x.nar", IncompleteUpload::NarInfo(record("m")));
    assert_eq!(done.unwrap().id, "m");
    assert_eq!(pending.len(), 0);
    assert_eq!(pending.waiting("x.nar"), None);
}

#[test]
fn metadata_then_bytes_completes_the_pair() {
    let mut pending = PendingUploads::new();
    assert!(pending.add_incomplete("x.nar", IncompleteUpload::NarInfo(record("m"))).is_none());
    assert_eq!(pending.len(), 1);
    assert_eq!(pending.waiting("x.nar"), Some(true));
    let done = pending.add_incomplete("x.nar", IncompleteUpload::Nar);
    assert_eq!(done.unwrap().id, "m");
    assert_eq!(pending.len(), 0);
    assert_eq!(pending.waiting("x.nar"), None);
}

#[test]
fn bytes_twice_leave_one_half_waiting() {
    let mut pending = PendingUploads::new();
    assert!(pending.add_incomplete("x.nar", IncompleteUpload::Nar).is_none());
    assert!(pending.add_incomplete("x.nar", IncompleteUpload::Nar).is_none());
    assert_eq!(pending.len(), 1);
    assert_eq!(pending.waiting("x.nar"), Some(false));
    let done = pending.add_incomplete("x.nar", IncompleteUpload::NarInfo(record("m")));
    assert_eq!(done.unwrap().id, "m");
    assert_eq!(pending.len(), 0);
    assert!(pending.add_incomplete("x.nar", IncompleteUpload::Nar).is_none());
    assert_eq!(pending.len(), 1);
}

#[test]
fn metadata_twice_keeps_the_last() {
    let mut pending = PendingUploads::new();
    assert!(pending.add_incomplete("x.nar", IncompleteUpload::NarInfo(record("first"))).is_none());
    assert!(pending.add_incomplete("x.nar", IncompleteUpload::NarInfo(record("second"))).is_none());
    assert_eq!(pending.len(), 1);
    let done = pending.add_incomplete("x.nar", IncompleteUpload::Nar);
    assert_eq!(done.unwrap().id, "second");
    assert_eq!(pending.len(), 0);
}

#[test]
fn keys_do_not_interfere() {
    let keys: Vec<String> = (0..20).map(|i| format!("{}.nar.xz", i)).collect();
    let mut pending = PendingUploads::new();
    for (i, key) in keys.iter().enumerate() {
        let part = if i % 2 == 0 {
            IncompleteUpload::Nar
        } else {
            IncompleteUpload::NarInfo(record(key))
        };
        assert!(pending.add_incomplete(key, part).is_none());
    }
    assert_eq!(pending.len(), 20);
    let mut completed = 0;
    for (i, key) in keys.iter().enumerate().rev() {
        let part = if i % 2 == 0 {
            IncompleteUpload::NarInfo(record(key))
        } else {
            IncompleteUpload::Nar
        };
        let done = pending.add_incomplete(key, part).unwrap();
        assert_eq!(&done.id, key);
        completed += 1;
        assert_eq!(pending.len(), 20 - completed);
    }
    assert_eq!(completed, 20);
}

#[test]
fn repeated_pairs_under_one_key_complete_once_each() {
    let mut pending = PendingUploads::new();
    let mut completed = 0;
    for round in 0..5 {
        if pending.add_incomplete("k", IncompleteUpload::Nar).is_some() {
            completed += 1;
        }
        if pending.add_incomplete("k", IncompleteUpload::Nar).is_some() {
            completed += 1;
        }
        if let Some(done) = pending.add_incomplete("k", IncompleteUpload::NarInfo(record("a"))) {
            assert_eq!(done.id, "a");
            completed += 1;
        }
        assert_eq!(completed, round + 1);
        assert_eq!(pending.len(), 0);
    }
}

#[test]
fn finalize_promotes_then_inserts() {
    let state = Finalize::start("x.nar", record("m"));
    match &state {
        Finalize::Promote { key, record } => {
            assert_eq!(key, "x.nar");
            assert_eq!(record.id, "m");
        }
        _ => panic!("the promotion comes first"),
    }
    let state = state.step(Ok(()));
    match &state {
        Finalize::Insert { record } => assert_eq!(record.id, "m"),
        _ => panic!("the entry into the index follows the promotion"),
    }
    let state = state.step(Ok(()));
    assert!(matches!(state, Finalize::Done));
    assert!(matches!(state.step(Ok(())), Finalize::Done));
}

#[test]
fn finalize_writes_no_record_after_a_failed_promotion() {
    let state = Finalize::start("x.nar", record("m")).step(Err(Error::Io("disk full".to_string())));
    assert!(matches!(&state, Finalize::Failed(Error::Io(said)) if said == "disk full"));
    let state = state.step(Ok(()));
    assert!(matches!(&state, Finalize::Failed(Error::Io(said)) if said == "disk full"));
}

#[test]
fn finalize_fails_with_the_error_of_the_index() {
    let state = Finalize::start("x.nar", record("m")).step(Ok(())).step(Err(Error::Database("locked".to_string())));
    assert!(matches!(&state, Finalize::Failed(Error::Database(said)) if said == "locked"));
    assert!(matches!(
        state.step(Err(Error::Io("later".to_string()))),
        Finalize::Failed(Error::Database(said)) if said == "locked"
    ));
}

#[test]
fn several_arrivals_of_both_kinds_complete_no_more_pairs_than_came() {
    let mut pending = PendingUploads::new();
    let mut completed = 0;
    let mut bytes = 0;
    let mut metadata = 0;
    for round in 0..24u32 {
        let part = if (round * 7 + round / 3) % 3 == 0 {
            metadata += 1;
            IncompleteUpload::NarInfo(record("m"))
        } else {
            bytes += 1;
            IncompleteUpload::Nar
        };
        if pending.add_incomplete("k", part).is_some() {
            completed += 1;
        }
        assert!(completed <= bytes && completed <= metadata);
        if bytes >= 1 && metadata >= 1 {
            assert!(completed >= 1);
        }
    }
    assert!(completed >= 1);
}
