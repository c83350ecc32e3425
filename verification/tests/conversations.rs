use responses_api_proxy::continuation::account;
use responses_api_proxy::continuation::Continuation;
use responses_api_proxy::conversations::Acquisition;
use responses_api_proxy::conversations::Action;
use responses_api_proxy::conversations::Conversations;
use responses_api_proxy::conversations::Event;
use responses_api_proxy::conversations::Failure;
use responses_api_proxy::conversations::Outcome;
use responses_api_proxy::conversations::Record;
use responses_api_proxy::conversations::RETENTION;
use responses_api_proxy::identity::SessionIdentity;
use responses_api_proxy::json::parse_text;
use responses_api_proxy::json::Json;
use responses_api_proxy::table::Table;

const NOW: u64 = 10_000_000;
const SECOND: u128 = 1_000_000_000;

fn j(text: &str) -> Json {
    parse_text(text).unwrap()
}

fn identity(thread: &str) -> SessionIdentity {
    SessionIdentity {
        installation_id: "installation".into(),
        session_id: "session".into(),
        thread_id: thread.into(),
        window_id: format!("{thread}:0"),
        parent_thread_id: None,
        turn_id: None,
        root_turn_id: None,
        parent_turn_id: None,
    }
}

fn owner() -> String {
    account(br#"{"tokens":{"account_id":"account"}}"#).unwrap()
}

fn open(records: Table<String, Record>, unknown: &[&str], capacity: usize) -> Conversations {
    let unknown = unknown.iter().map(|key| key.to_string()).collect();
    Conversations::restore(1, records, 0, &unknown, Some(owner()), capacity, 0).unwrap()
}

fn insert(index: &mut Conversations, key: &str, thread: &str, used_at: u64) {
    index.records.insert(
        key.to_string(),
        Record {
            account: owner(),
            identity: identity(thread),
            used_at,
            invalid: false,
            recoverable: false,
        },
    );
}

fn acquire(
    index: &mut Conversations,
    key: &str,
    continuation: Continuation,
) -> (Acquisition, Action) {
    index.acquire(key.to_string(), continuation, owner(), NOW, SECOND)
}

fn record<'a>(index: &'a Conversations, key: &str) -> &'a Record {
    index.records.get(&key.to_string()).unwrap()
}

#[test]
fn invalidation_is_preserved_across_restart() {
    let mut index = open(Table::new(), &[], 2);
    insert(&mut index, "logical", "thread", 10);
    let index = open(index.records, &["logical", "other"], 2);
    assert!(record(&index, "logical").identity.equals(&identity("thread")));
    assert!(record(&index, "logical").invalid);
    let index = open(index.records, &[], 2);
    assert!(record(&index, "logical").invalid);
    assert!(
        Conversations::restore(2, Table::new(), 0, &Vec::new(), None, 2, 0).is_none()
    );
    assert!(
        Conversations::restore(1, Table::new(), 4_194_305, &Vec::new(), None, 2, 0).is_none()
    );
}

#[test]
fn empty_deployment_accepts_first_account_without_restarting() {
    let mut index =
        Conversations::restore(1, Table::new(), 0, &Vec::new(), None, 2, 0).unwrap();
    // Without credentials there is no account to ask for a conversation.
    assert!(account(b"").is_err());
    assert_eq!(index.account, None);

    let first = account(br#"{"OPENAI_API_KEY":"fixture"}"#).unwrap();
    let (_, action) = index.acquire(
        "missing".to_string(),
        Continuation::RequiresIdentity,
        first.clone(),
        NOW,
        SECOND,
    );
    assert!(matches!(action, Action::Fail(Failure::BindingLost)));
    assert_eq!(index.account, Some(first));
    let (_, action) = acquire(&mut index, "missing", Continuation::SelfContained);
    assert!(matches!(action, Action::Fail(Failure::AccountChanged)));
}

#[test]
fn terminated_rpc_restores_original_identity_after_restart_and_continues_tools() {
    for restart in [false, true] {
        let mut index = open(Table::new(), &[], 2);
        insert(&mut index, "logical", "original", NOW);
        index.loaded.insert("original".to_string(), None);
        assert!(index.release(&"original".to_string(), Outcome::Recoverable, SECOND));
        index.settle(&"original".to_string(), Outcome::Recoverable, SECOND);
        if restart {
            index = open(index.records, &["logical"], 2);
        }
        let mut resumes = 0;
        for _ in 0..2 {
            let (thread, resume) = index
                .restorable(&"logical".to_string(), &owner())
                .unwrap();
            assert_eq!(thread, "original");
            if resume {
                resumes += 1;
                index.resumed(&thread, SECOND);
            }
            index
                .restore_binding(&"logical".to_string(), &vec![identity("original")])
                .unwrap();
        }
        let body = j(r#"{"input":[{"type":"function_call_output","call_id":"call-1","output":"done"}]}"#);
        let continuation = Continuation::from_request(&body, Some("original-route"));
        let (mut acquisition, action) = acquire(&mut index, "logical", continuation);
        assert!(matches!(action, Action::List));
        let action = index.advance(
            &mut acquisition,
            Event::Identities(vec![identity("original")]),
            SECOND,
        );
        assert!(matches!(action, Action::Save));
        let action = index.advance(&mut acquisition, Event::Done, SECOND);
        match action {
            Action::Finish(restored) => assert!(restored.equals(&identity("original"))),
            other => panic!("{other:?}"),
        }
        assert!(!record(&index, "logical").recoverable);
        assert!(!record(&index, "logical").invalid);
        assert!(!index.release(&"original".to_string(), Outcome::Released, 5));
        assert_eq!(
            index.loaded.get(&"original".to_string()),
            Some(&Some(5))
        );
        assert_eq!(resumes, usize::from(restart));
    }
}

#[test]
fn unknown_execution_or_changed_account_cannot_restore_binding() {
    for outcome in [Outcome::Unknown, Outcome::Recoverable] {
        let mut index = open(Table::new(), &[], 2);
        index.records.insert(
            "logical".to_string(),
            Record {
                account: owner(),
                identity: SessionIdentity {
                    installation_id: "i".into(),
                    session_id: "s".into(),
                    thread_id: "t".into(),
                    window_id: "w".into(),
                    parent_thread_id: None,
                    turn_id: None,
                    root_turn_id: None,
                    parent_turn_id: None,
                },
                used_at: NOW,
                invalid: false,
                recoverable: false,
            },
        );
        index.release(&"t".to_string(), outcome, SECOND);
        let current = if outcome == Outcome::Recoverable {
            account(br#"{"tokens":{"account_id":"different"}}"#).unwrap()
        } else {
            owner()
        };
        assert!(index.restorable(&"logical".to_string(), &current).is_err());
        assert!(record(&index, "logical").invalid);
    }
}

#[test]
fn a_new_conversation_is_started_named_and_kept() {
    let mut index = open(Table::new(), &[], 1);
    let (mut acquisition, action) = acquire(&mut index, "new", Continuation::SelfContained);
    let (method, params) = action.request().unwrap();
    assert_eq!(method, "thread/start");
    assert_eq!(
        params.to_text(),
        r#"{"environments":[],"ephemeral":false,"historyMode":"legacy"}"#
    );
    let action = index.advance(
        &mut acquisition,
        Event::Reply(j(r#"{"thread":{"id":"t1"}}"#)),
        SECOND,
    );
    let (method, params) = action.request().unwrap();
    assert_eq!(method, "thread/name/set");
    assert_eq!(
        params.to_text(),
        r#"{"name":"Worker conversation","threadId":"t1"}"#
    );
    assert!(matches!(
        index.advance(&mut acquisition, Event::Done, SECOND),
        Action::List
    ));
    assert!(matches!(
        index.advance(
            &mut acquisition,
            Event::Identities(vec![identity("t1")]),
            SECOND
        ),
        Action::Save
    ));
    assert!(matches!(
        index.advance(&mut acquisition, Event::Done, SECOND),
        Action::Finish(_)
    ));
    assert_eq!(record(&index, "new").used_at, NOW);
    // The thread is leased now, and there is no room for another.
    let (_, action) = acquire(&mut index, "new", Continuation::RequiresIdentity);
    assert!(matches!(action, Action::Fail(Failure::Leased)));
    let (_, action) = acquire(&mut index, "second", Continuation::SelfContained);
    assert!(matches!(action, Action::Fail(Failure::Full)));
}

#[test]
fn the_longest_idle_thread_is_unloaded_and_stale_records_are_deleted() {
    let mut index = open(Table::new(), &[], 2);
    insert(&mut index, "old", "stale", NOW - RETENTION);
    index.loaded.insert("a".to_string(), Some(7));
    index.loaded.insert("b".to_string(), Some(3));
    let (mut acquisition, action) = acquire(&mut index, "new", Continuation::SelfContained);
    match &action {
        Action::Unsubscribe(thread) => assert_eq!(thread, "b"),
        other => panic!("{other:?}"),
    }
    let action = index.advance(&mut acquisition, Event::Done, SECOND);
    assert_eq!(action.request().unwrap().0, "thread/delete");
    // A thread that is gone already is as good as deleted.
    let action = index.advance(
        &mut acquisition,
        Event::Failed(Some(-32600), "thread not found: stale".to_string()),
        SECOND,
    );
    assert!(matches!(action, Action::Save));
    assert!(!index.records.has(&"old".to_string()));
    assert!(matches!(
        index.advance(&mut acquisition, Event::Done, SECOND),
        Action::Start
    ));
    assert!(matches!(
        index.advance(&mut acquisition, Event::Reply(j("{}")), SECOND),
        Action::Fail(Failure::MissingThread)
    ));
}

#[test]
fn a_closing_thread_is_asked_again_for_a_while() {
    let mut index = open(Table::new(), &[], 2);
    insert(&mut index, "logical", "t", NOW);
    let (mut acquisition, action) = acquire(&mut index, "logical", Continuation::RequiresIdentity);
    assert_eq!(
        action.request().unwrap().1.to_text(),
        r#"{"excludeTurns":true,"threadId":"t"}"#
    );
    let closing = || Event::Failed(Some(-32600), "thread t is closing; retry later".to_string());
    assert!(matches!(
        index.advance(&mut acquisition, closing(), 2 * SECOND),
        Action::ResumeLater(_)
    ));
    assert!(matches!(
        index.advance(&mut acquisition, closing(), 6 * SECOND),
        Action::Fail(Failure::Outside)
    ));
}

#[test]
fn another_identity_is_refused() {
    let mut index = open(Table::new(), &[], 2);
    insert(&mut index, "logical", "t", NOW);
    let (mut acquisition, _) = acquire(&mut index, "logical", Continuation::RequiresIdentity);
    assert!(matches!(
        index.advance(&mut acquisition, Event::Done, SECOND),
        Action::List
    ));
    let mut changed = identity("t");
    changed.session_id = "another".to_string();
    assert!(matches!(
        index.advance(&mut acquisition, Event::Identities(vec![changed]), SECOND),
        Action::Fail(Failure::IdentityChanged)
    ));
    assert_eq!(
        index.restore_binding(&"logical".to_string(), &vec![identity("x")]),
        Err(Failure::IdentityChanged)
    );
    assert_eq!(
        index.restore_binding(&"none".to_string(), &Vec::new()),
        Err(Failure::BindingLost)
    );
}

#[test]
fn idle_threads_expire() {
    let mut index = open(Table::new(), &[], 4);
    index.idle_ttl = 10;
    index.loaded.insert("idle".to_string(), Some(5));
    index.loaded.insert("fresh".to_string(), Some(6));
    index.loaded.insert("leased".to_string(), None);
    assert_eq!(index.expired(15), vec!["idle"]);
    index.unloaded(&"idle".to_string());
    assert!(!index.loaded.has(&"idle".to_string()));
}

#[test]
fn limits_have_to_leave_room() {
    let index = open(Table::new(), &[], 2);
    let check = |text: &str| index.check_limits(&j(text));
    assert_eq!(
        check(r#"{"accountId":"account","rateLimits":{"primary":{"usedPercent":99.9}}}"#),
        Ok(())
    );
    assert_eq!(
        check(r#"{"accountId":"else","rateLimits":{"primary":{"usedPercent":1}}}"#),
        Err(Failure::AccountChanged)
    );
    for exhausted in [
        r#"{}"#,
        r#"{"rateLimits":{}}"#,
        r#"{"rateLimits":{"primary":{"usedPercent":100}}}"#,
        r#"{"rateLimits":{"primary":{"usedPercent":-1}}}"#,
        r#"{"rateLimits":{"primary":{"usedPercent":1},"secondary":{}}}"#,
        r#"{"rateLimits":{"primary":{"usedPercent":1},"spendControlReached":true}}"#,
        r#"{"rateLimits":{"primary":{"usedPercent":1},"rateLimitReachedType":"x"}}"#,
        r#"{"rateLimits":{"primary":{"usedPercent":1},"individualLimit":{"remainingPercent":0}}}"#,
    ] {
        assert_eq!(check(exhausted), Err(Failure::LimitsExhausted), "{exhausted}");
    }
    assert_eq!(
        check(r#"{"rateLimits":{"secondary":{"usedPercent":-0.0},"individualLimit":{"remainingPercent":3}}}"#),
        Ok(())
    );
}

#[test]
fn a_loaded_thread_is_idle_from_the_moment_it_is_asked_for() {
    let mut index = open(Table::new(), &[], 2);
    insert(&mut index, "logical", "t", NOW);
    index.loaded.insert("t".to_string(), Some(1));
    let (mut acquisition, action) = acquire(&mut index, "logical", Continuation::RequiresIdentity);
    assert!(matches!(action, Action::List));
    assert_eq!(index.loaded.get(&"t".to_string()), Some(&Some(SECOND)));
    let action = index.advance(
        &mut acquisition,
        Event::Failed(None, "lost".to_string()),
        2 * SECOND,
    );
    assert!(matches!(action, Action::Fail(Failure::Outside)));
    assert_eq!(index.loaded.get(&"t".to_string()), Some(&Some(SECOND)));
}
