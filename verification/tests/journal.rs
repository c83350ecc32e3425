use responses_api_proxy::clock::SECOND;
use responses_api_proxy::journal::Journal;
use responses_api_proxy::journal::MAX_FILE;
use responses_api_proxy::journal::MAX_RECORDS;
use responses_api_proxy::rejection::Rejection;
use responses_api_proxy::throttle::Throttle;

const NOW: u64 = 1_700_000_000;

fn id(text: &str) -> String {
    text.to_string()
}

fn reopen(journal: Journal) -> Journal {
    Journal::restore(journal, 0, NOW).unwrap().0
}

#[test]
fn journal_locks_owner_and_preserves_dispatch_across_restart() {
    let mut journal = reopen(Journal::new());
    journal
        .start(&id("request"), "fingerprint", Some(id("binding")), NOW)
        .unwrap();
    let mut journal = reopen(journal);
    assert_eq!(
        journal.unfinished().entries,
        vec![(id("request"), Some(id("binding")))]
    );
    assert_eq!(journal.unknown_conversations(), vec!["binding"]);
    assert_eq!(
        journal.check(&id("request"), "changed", NOW),
        Err(Rejection::Conflict)
    );
    assert_eq!(
        journal.check(&id("request"), "fingerprint", NOW),
        Err(Rejection::Duplicate)
    );
    journal.acknowledge_unknown(NOW);
    assert!(journal.unfinished().entries.is_empty());
    assert_eq!(
        journal.check(&id("request"), "fingerprint", NOW),
        Err(Rejection::Completed)
    );
    assert!(reopen(journal).unfinished().entries.is_empty());
}

#[test]
fn finished_records_expire() {
    let mut journal = Journal::new();
    journal.start(&id("request"), "body", None, NOW).unwrap();
    journal
        .records
        .get_mut(&id("request"))
        .unwrap()
        .finished_at = Some(NOW - 601);
    assert_eq!(journal.check(&id("request"), "body", NOW), Ok(()));
    assert_eq!(journal.records.len(), 0);
}

#[test]
fn restarting_does_not_erase_account_cooldown() {
    let mut journal = reopen(Journal::new());
    let instant = 77 * SECOND;
    let mut throttle = Throttle::with_limit(1);
    throttle.until = Some(instant + 3600 * SECOND);
    journal.save_account(&throttle, instant, NOW);
    let journal = reopen(journal);
    let (cooldown, blocked, limit) = journal.account(NOW);
    assert!(cooldown.unwrap() >= 3599 * SECOND);
    assert_eq!((blocked, limit), (false, 1));
}

#[test]
fn recovery_cycles_survive_restart_and_release_never_acknowledges_completion() {
    let mut journal = reopen(Journal::new());
    journal
        .start(&id("old"), "body", Some(id("conversation")), NOW)
        .unwrap();
    journal.quarantine(&id("old"), NOW);
    let first = journal
        .records
        .get(&id("old"))
        .unwrap()
        .next_check_at
        .unwrap();
    assert!(journal.recovery_due(first - 1).is_empty());
    for offset in [0, 20, 50, 60, 80, 110] {
        let at = first + offset;
        assert_eq!(
            journal.records.get(&id("old")).unwrap().next_check_at,
            Some(at)
        );
        assert_eq!(
            journal.recovery_due(at),
            vec![(id("old"), id("conversation"))]
        );
        journal.recovery_result(&id("old"), false, at);
        journal = reopen(journal);
    }
    journal.recovery_result(&id("old"), true, first + 120);
    let mut journal = reopen(journal);
    assert!(journal.unfinished().entries.is_empty());
    assert!(journal.unknown_conversations().is_empty());
    assert_eq!(journal.records.get(&id("old")).unwrap().finished_at, None);
    assert_eq!(
        journal.check(&id("old"), "body", NOW),
        Err(Rejection::OutcomeUnknown)
    );
    assert_eq!(
        journal.check(&id("old"), "changed", NOW),
        Err(Rejection::Conflict)
    );
    assert_eq!(journal.check(&id("next"), "next", NOW), Ok(()));
    assert_eq!(
        journal.recovery_status().to_text(),
        r#"{"next_check_at":null,"released_unknown":1}"#
    );
}

#[test]
fn an_oversized_journal_is_refused() {
    assert!(Journal::restore(Journal::new(), MAX_FILE + 1, NOW).is_none());
    assert!(Journal::restore(Journal::new(), MAX_FILE, NOW).is_some());
}

#[test]
fn a_full_journal_refuses_until_something_is_forgotten() {
    let mut journal = Journal::new();
    for n in 0..MAX_RECORDS {
        journal.start(&n.to_string(), "body", None, NOW).unwrap();
    }
    assert_eq!(
        journal.check(&id("new"), "body", NOW),
        Err(Rejection::Full)
    );
    journal.finish(&id("0"), NOW);
    assert_eq!(journal.check(&id("new"), "body", NOW + 601), Ok(()));
}
