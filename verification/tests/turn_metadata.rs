use responses_api_proxy::identity::SessionIdentity;
use responses_api_proxy::json::parse_json;
use responses_api_proxy::json::parse_text;
use responses_api_proxy::json::Json;
use responses_api_proxy::profiles::ProfileError;
use responses_api_proxy::profiles::Profiles;
use responses_api_proxy::profiles::WorkspaceProfile;
use responses_api_proxy::table::Table;
use responses_api_proxy::turn_metadata::read;
use responses_api_proxy::turn_metadata::rewrite_request;
use responses_api_proxy::turn_metadata::MetadataError;
use responses_api_proxy::turn_metadata::RewrittenRequest;

fn j(text: &str) -> Json {
    parse_text(text).unwrap()
}

fn identity(thread: &str) -> SessionIdentity {
    SessionIdentity {
        installation_id: "server-installation".into(),
        session_id: thread.into(),
        thread_id: thread.into(),
        window_id: "server-window".into(),
        parent_thread_id: None,
        turn_id: None,
        root_turn_id: None,
        parent_turn_id: None,
    }
}

fn workspaces() -> Vec<WorkspaceProfile> {
    (0..5)
        .map(|index| WorkspaceProfile {
            path: format!("/workspace/project-{index}"),
            remote_url: "https://github.com/example/project.git".into(),
            commit: "1234567890123456789012345678901234567890".into(),
            has_changes: false,
        })
        .collect()
}

fn profiles() -> Profiles {
    Profiles::open(1, workspaces(), Table::new(), 100).unwrap()
}

fn reopen(profiles: Profiles) -> Profiles {
    Profiles::open(1, profiles.profiles, profiles.threads, 100).unwrap()
}

fn headers(metadata: &Json) -> Table<String, String> {
    let mut table = Table::new();
    table.insert("x-codex-turn-metadata".to_string(), metadata.to_text());
    table
}

/// What a request goes through: its threads are bound, and then it is rewritten.
fn rewritten(
    body: &[u8],
    headers: &Table<String, String>,
    identity: &SessionIdentity,
    profiles: &mut Profiles,
) -> Option<RewrittenRequest> {
    let carriers = read(body, headers).ok()?;
    let (threads, parents) = carriers.sources(headers).ok()?;
    let aliases = profiles.aliases(identity, &threads).ok()?;
    profiles.adopt(aliases);
    let binding = profiles.bind(identity, &parents).ok()?;
    rewrite_request(body, headers, identity, Some(&binding)).ok()
}

fn carried(request: &RewrittenRequest) -> Json {
    j(request
        .headers
        .get(&"x-codex-turn-metadata".to_string())
        .unwrap())
}

fn keys(value: &Json) -> Vec<String> {
    match value {
        Json::Object(entries) => entries.iter().map(|(key, _)| key.clone()).collect(),
        _ => panic!("no object"),
    }
}

fn shown(table: &Table<String, String>) -> Vec<(String, String)> {
    let mut entries: Vec<(String, String)> = table.entries.to_vec();
    entries.sort();
    entries
}

#[test]
fn replaces_workspace_and_identity_in_both_carriers_and_survives_restart() {
    let mut profiles = profiles();
    let metadata = j(r#"{
        "installation_id": "client-installation", "session_id": "client-thread", "thread_id": "client-thread",
        "window_id": "client-window", "context_window_id": "client-context", "turn_id": "client-turn",
        "root_turn_id": "client-turn", "parent_turn_id": null, "agent_name": "/root",
        "workspaces": {"/Users/client/project": {
            "associated_remote_urls": {"origin": "https://private.example/original", "upstream": null},
            "latest_git_commit_hash": "old-commit", "has_changes": true, "unknown": [1, null]
        }},
        "sandbox": "workspace-write"
    }"#);
    let mut body = j(
        r#"{"model": "mock", "input": [{"role": "user", "content": "/Users/client/project"}],
        "tools": [{"type": "function", "name": "read", "parameters": {}}],
        "client_metadata": {"session_id": "client-thread"}}"#,
    );
    let mut client = j(r#"{"session_id": "client-thread"}"#);
    client.put("x-codex-turn-metadata", Json::Text(metadata.to_text()));
    body.put("client_metadata", client);
    let bytes = body.to_bytes();
    let first = rewritten(
        &bytes,
        &headers(&metadata),
        &identity("server-thread"),
        &mut profiles,
    )
    .unwrap();
    let actual = carried(&first);
    let paths = keys(actual.get("workspaces").unwrap());
    assert_eq!(paths.len(), 1);
    let path = &paths[0];
    assert!(path.starts_with("/workspace/project-") && path.contains("/worktrees/"));
    for field in ["context_window_id", "turn_id"] {
        assert_ne!(actual.text_at(field), metadata.text_at(field));
        assert_eq!(actual.text_at(field).unwrap().len(), 36);
    }
    let text = |value: &str| Json::Text(value.to_string());
    let mut expected = metadata.copy();
    expected.put("installation_id", text("server-installation"));
    expected.put("session_id", text("server-thread"));
    expected.put("thread_id", text("server-thread"));
    expected.put("window_id", text("server-window"));
    expected.put(
        "context_window_id",
        actual.get("context_window_id").unwrap().copy(),
    );
    expected.put("turn_id", actual.get("turn_id").unwrap().copy());
    expected.put("root_turn_id", actual.get("turn_id").unwrap().copy());
    let mut replaced = Json::object();
    replaced.put(
        path,
        j(r#"{
        "associated_remote_urls": {"origin": "https://github.com/example/project.git", "upstream": null},
        "latest_git_commit_hash": "1234567890123456789012345678901234567890", "has_changes": false,
        "unknown": [1, null]
    }"#),
    );
    expected.put("workspaces", replaced);
    assert_eq!(actual.to_text(), expected.to_text());
    let mut expected_body = body;
    expected_body.put("store", Json::Bool(false));
    let mut client = j(r#"{"session_id": "server-thread"}"#);
    client.put("x-codex-turn-metadata", Json::Text(actual.to_text()));
    expected_body.put("client_metadata", client);
    assert_eq!(first.body.to_text(), expected_body.to_text());
    let mut profiles = reopen(profiles);
    let after = rewritten(
        &bytes,
        &headers(&metadata),
        &identity("server-thread"),
        &mut profiles,
    )
    .unwrap();
    assert_eq!(
        (after.body.to_text(), shown(&after.headers)),
        (first.body.to_text(), shown(&first.headers))
    );
}

#[test]
fn preserves_shape_multiple_workspaces_nulls_and_header_only_body() {
    let mut profiles = profiles();
    let body = br#"{"model":"mock","input":[],"store":false,"unknown":[null,true]}"#;
    let metadata = j(r#"{"session_id": "client", "turn_id": null, "workspaces": {
        "C:\\repo": {"has_changes": null, "other": 7}, "/other": {}
    }}"#);
    let request = rewritten(
        body,
        &headers(&metadata),
        &identity("server"),
        &mut profiles,
    )
    .unwrap();
    assert_eq!(
        request.body.to_text(),
        parse_json(body).unwrap().to_text()
    );
    let actual = carried(&request);
    let workspaces = actual.get("workspaces").unwrap();
    let paths = keys(workspaces);
    assert_eq!(paths.len(), 2);
    assert!(paths
        .iter()
        .all(|path| path.starts_with("/workspace/project-")));
    let mut values: Vec<String> = paths
        .iter()
        .map(|path| workspaces.get(path).unwrap().to_text())
        .collect();
    values.sort();
    let mut expected = vec![
        j(r#"{"has_changes": null, "other": 7}"#).to_text(),
        j("{}").to_text(),
    ];
    expected.sort();
    assert_eq!(values, expected);
    assert!(actual.get("turn_id").unwrap().is_null());
    let empty = rewritten(body, &Table::new(), &identity("server"), &mut profiles).unwrap();
    assert_eq!(
        (empty.body.to_text(), shown(&empty.headers)),
        (parse_json(body).unwrap().to_text(), Vec::new())
    );
}

#[test]
fn preserves_parent_thread_and_turn_links_across_restart_and_new_turns() {
    let mut profiles = profiles();
    let parent = j(r#"{"thread_id": "parent", "turn_id": "root-turn"}"#);
    let parent_request = rewritten(
        b"{}",
        &headers(&parent),
        &identity("mapped-parent"),
        &mut profiles,
    )
    .unwrap();
    let parent_result = carried(&parent_request);
    let mut profiles = reopen(profiles);
    let child = j(
        r#"{"thread_id": "child", "parent_thread_id": "parent", "turn_id": "child-turn", "root_turn_id": "root-turn", "parent_turn_id": "root-turn"}"#,
    );
    let mut supplied = headers(&child);
    supplied.insert("x-codex-parent-thread-id".into(), "parent".into());
    let request = rewritten(b"{}", &supplied, &identity("mapped-child"), &mut profiles).unwrap();
    let actual = carried(&request);
    assert_ne!(actual.text_at("turn_id"), parent_result.text_at("turn_id"));
    assert_ne!(actual.text_at("turn_id"), child.text_at("turn_id"));
    let mut expected = j(
        r#"{"thread_id":"mapped-child", "parent_thread_id":"mapped-parent"}"#,
    );
    expected.put("turn_id", actual.get("turn_id").unwrap().copy());
    expected.put("root_turn_id", parent_result.get("turn_id").unwrap().copy());
    expected.put(
        "parent_turn_id",
        parent_result.get("turn_id").unwrap().copy(),
    );
    assert_eq!(actual.to_text(), expected.to_text());
    assert_eq!(
        request
            .headers
            .get(&"x-codex-parent-thread-id".to_string())
            .unwrap(),
        "mapped-parent"
    );
}

#[test]
fn rejects_unbound_parent_conflicts_and_headers_that_expand_past_limit() {
    let mut profiles = profiles();
    for metadata in [
        r#"{"parent_thread_id":"unseen"}"#,
        r#"{"turn_id":42}"#,
        r#"{"workspaces":[]}"#,
    ] {
        assert!(rewritten(
            b"{}",
            &headers(&j(metadata)),
            &identity("server"),
            &mut profiles
        )
        .is_none());
    }
    let body = br#"{"client_metadata":{"thread_id":"one"}}"#;
    assert!(rewritten(
        body,
        &headers(&j(r#"{"thread_id":"two"}"#)),
        &identity("server"),
        &mut profiles
    )
    .is_none());
    let metadata = j(&format!(
        r#"{{"padding": "{}", "workspaces": {{"/a":{{"associated_remote_urls":{{"origin":"x"}}}}}}}}"#,
        "x".repeat(8110)
    ));
    assert!(metadata.to_text().len() <= 8192);
    assert!(rewritten(
        b"{}",
        &headers(&metadata),
        &identity("server"),
        &mut profiles
    )
    .is_none());
}

#[test]
fn defaults_omitted_storage_without_changing_explicit_values_or_sdk_parameters() {
    let base = j(r#"{
        "model": "mock", "input": [{"role":"user", "content":"hello"}],
        "stream": true, "max_output_tokens": 1024,
        "reasoning": {"effort":"low"}, "text": {"verbosity":"low"}
    }"#);
    for supplied_store in [
        None,
        Some(Json::Bool(false)),
        Some(Json::Bool(true)),
        Some(Json::Null),
    ] {
        let mut supplied = base.copy();
        if let Some(value) = &supplied_store {
            supplied.put("store", value.copy());
        }
        let request = rewrite_request(
            &supplied.to_bytes(),
            &Table::new(),
            &identity("server"),
            None,
        )
        .unwrap();
        let mut expected = base.copy();
        expected.put("store", supplied_store.unwrap_or(Json::Bool(false)));
        assert_eq!(request.body.to_text(), expected.to_text());
    }
}

#[test]
fn all_profiles_are_used_and_aliases_that_were_not_kept_can_be_bound_again() {
    let mut profiles = profiles();
    let mut chosen: Vec<String> = (0..100)
        .map(|index| {
            profiles
                .bind(&identity(&format!("thread-{index}")), &Vec::new())
                .unwrap()
                .workspace
                .path
        })
        .map(|path| path.split("/worktrees/").next().unwrap().to_string())
        .collect();
    chosen.sort();
    chosen.dedup();
    assert_eq!(chosen.len(), 5);
    let source = vec!["client-parent".to_string()];
    // Aliases that could not be written are dropped, and nothing is known of the parent.
    let lost = profiles.aliases(&identity("server-parent"), &source).unwrap();
    drop(lost);
    assert_eq!(
        profiles
            .bind(&identity("server-child"), &source)
            .err()
            .unwrap(),
        ProfileError::UnknownParent
    );
    let kept = profiles.aliases(&identity("server-parent"), &source).unwrap();
    profiles.adopt(kept);
    let binding = reopen(profiles)
        .bind(&identity("server-child"), &source)
        .unwrap();
    assert_eq!(
        binding.parents.entries,
        vec![("client-parent".to_string(), "server-parent".to_string())]
    );
}

#[test]
fn each_fault_of_a_request_is_told_apart() {
    let try_with = |body: &[u8], metadata: Option<&str>| {
        let headers = match metadata {
            Some(text) => {
                let mut table = Table::new();
                table.insert("x-codex-turn-metadata".to_string(), text.to_string());
                table
            }
            None => Table::new(),
        };
        rewrite_request(body, &headers, &identity("server"), None).err()
    };
    assert_eq!(try_with(b"{", None), Some(MetadataError::Body));
    assert_eq!(
        try_with(br#"{"client_metadata":7}"#, None),
        Some(MetadataError::ClientMetadata)
    );
    assert_eq!(
        try_with(b"{}", Some("[]")),
        Some(MetadataError::TurnMetadata)
    );
    assert_eq!(
        try_with(b"{}", Some(r#"{"turn_id":42}"#)),
        Some(MetadataError::Field)
    );
    assert_eq!(
        try_with(
            br#"{"client_metadata":{"thread_id":"one"}}"#,
            Some(r#"{"thread_id":"two"}"#)
        ),
        Some(MetadataError::Conflict)
    );
}

#[test]
fn profiles_are_checked_when_they_are_opened() {
    let open = |change: fn(&mut WorkspaceProfile)| {
        let mut list = workspaces();
        change(&mut list[2]);
        Profiles::open(1, list, Table::new(), 100).err()
    };
    assert_eq!(open(|_| ()), None);
    assert_eq!(
        open(|w| w.path = "relative".to_string()),
        Some(ProfileError::Path)
    );
    assert_eq!(
        open(|w| w.remote_url = "ftp://x".to_string()),
        Some(ProfileError::RemoteUrl)
    );
    assert_eq!(
        open(|w| w.commit = "123".to_string()),
        Some(ProfileError::Commit)
    );
    assert_eq!(
        Profiles::open(2, workspaces(), Table::new(), 100).err(),
        Some(ProfileError::Version)
    );
    assert_eq!(
        Profiles::open(1, workspaces(), Table::new(), 4_194_305).err(),
        Some(ProfileError::TooLarge)
    );
}
