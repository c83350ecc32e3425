use base64::Engine;
use responses_api_proxy::accounts::id_token_email;
use responses_api_proxy::accounts::identity;
use responses_api_proxy::accounts::login_label;
use responses_api_proxy::accounts::masked_account;
use responses_api_proxy::accounts::names;
use responses_api_proxy::accounts::read_auth;
use responses_api_proxy::accounts::valid_name;
use responses_api_proxy::accounts::validate_auth;
use responses_api_proxy::accounts::Active;
use responses_api_proxy::accounts::Profile;
use responses_api_proxy::accounts::Store;
use responses_api_proxy::accounts::StoreError;
use responses_api_proxy::accounts::Switch;
use responses_api_proxy::admin;
use responses_api_proxy::json::parse_text;
use responses_api_proxy::json::Json;

fn j(text: &str) -> Json {
    parse_text(text).unwrap()
}

/// The directory of saved accounts and the file with the credentials in use.
struct Disk {
    profiles: Vec<(String, Result<Json, String>)>,
    auth: Option<Json>,
    capacity: usize,
}

impl Disk {
    fn new(auth: Option<&str>, capacity: usize) -> Disk {
        Disk {
            profiles: Vec::new(),
            auth: auth.map(j),
            capacity,
        }
    }

    fn store(&self) -> Store {
        let entries: Vec<(String, bool)> = self
            .profiles
            .iter()
            .map(|(name, _)| (name.clone(), true))
            .collect();
        let profiles = names(&entries)
            .unwrap()
            .into_iter()
            .map(|name| {
                let auth = self
                    .profiles
                    .iter()
                    .find(|(other, _)| *other == name)
                    .map(|(_, auth)| match auth {
                        Ok(auth) => Ok(auth.copy()),
                        Err(words) => Err(words.clone()),
                    })
                    .unwrap();
                Profile { name, auth }
            })
            .collect();
        let active = match &self.auth {
            None => Active::Missing,
            Some(auth) => Active::Known(auth.copy()),
        };
        Store::new(profiles, active, self.capacity)
    }

    fn write(&mut self, name: &str, auth: Json) {
        self.profiles.retain(|(other, _)| other != name);
        self.profiles.push((name.to_string(), Ok(auth)));
    }

    fn add(&mut self, name: &str, auth: &str) -> Result<(), StoreError<String>> {
        self.store().add(name, &j(auth))?;
        self.write(name, j(auth));
        Ok(())
    }

    fn delete(&mut self, name: &str) -> Result<(), StoreError<String>> {
        self.store().delete(name)?;
        self.profiles.retain(|(other, _)| other != name);
        Ok(())
    }

    fn activate(&mut self, name: &str) -> Result<(), StoreError<String>> {
        match self.store().activate(name)? {
            Switch::Nothing => {}
            Switch::Write(next) => self.auth = Some(next),
            Switch::KeepAndWrite(kept, old, next) | Switch::AddAndWrite(kept, old, next) => {
                self.write(&kept, old);
                self.auth = Some(next);
            }
        }
        Ok(())
    }

    fn save_login(
        &mut self,
        name: &str,
        auth: &str,
        activate: impl FnOnce(&mut Disk, Json) -> bool,
    ) -> Result<Option<Json>, StoreError<String>> {
        let plan = self.store().save_login(name, &j(auth))?;
        self.write(&plan.profile, j(auth));
        if plan.active && !activate(self, j(auth)) {
            return Ok(None);
        }
        Ok(Some(admin::saved(plan.profile, plan.updated, plan.active)))
    }

    fn names(&self) -> Vec<String> {
        self.store()
            .profiles
            .into_iter()
            .map(|profile| profile.name)
            .collect()
    }

    fn saved(&self, name: &str) -> String {
        let (_, auth) = self
            .profiles
            .iter()
            .find(|(other, _)| other == name)
            .unwrap();
        auth.as_ref().unwrap().to_text()
    }

    fn active(&self) -> String {
        self.auth.as_ref().unwrap().to_text()
    }

    fn list(&self) -> String {
        self.store().list().to_text()
    }
}

fn canonical(text: &str) -> String {
    j(text).to_text()
}

const FIRST: &str = r#"{"OPENAI_API_KEY":"first-login-identity-0001"}"#;
const SECOND: &str = r#"{"tokens":{"account_id":"user@example.com","access_token":"a","refresh_token":"r","id_token":"i"}}"#;

#[test]
fn accounts_preserve_current_credentials_and_protect_active_deletion() {
    let mut disk = Disk::new(Some(FIRST), 6);
    disk.add("a", FIRST).unwrap();
    disk.add("b", SECOND).unwrap();
    assert!(disk.add("duplicate", FIRST).is_err());
    assert!(disk.add("../escape", SECOND).is_err());
    assert!(disk.add("invalid", "{}").is_err());
    assert!(disk.delete("a").is_err());
    assert_eq!(
        disk.list(),
        canonical(
            r#"{
            "profiles": [
                {"name":"a","account":"account-***0001","active":true,"valid":true},
                {"name":"b","account":"u***@example.com","active":false,"valid":true}
            ],
            "current": "account-***0001"
        }"#
        )
    );
    disk.activate("b").unwrap();
    assert_eq!(disk.active(), canonical(SECOND));
    assert_eq!(
        disk.list(),
        canonical(
            r#"{
            "profiles": [
                {"name":"a","account":"account-***0001","active":false,"valid":true},
                {"name":"b","account":"u***@example.com","active":true,"valid":true}
            ],
            "current": "u***@example.com"
        }"#
        )
    );
    disk.delete("a").unwrap();
    assert_eq!(disk.names(), vec!["b"]);
    assert!(disk.delete("b").is_err());
}

#[test]
fn short_identifiers_reveal_no_suffix() {
    assert_eq!(masked_account("short"), "account-***");
    assert_eq!(masked_account(""), "account-***");
}

#[test]
fn login_label_prefers_masked_id_token_email() {
    let payload = base64::engine::general_purpose::URL_SAFE_NO_PAD
        .encode(br#"{"email":"alice@example.com"}"#);
    let with_jwt = j(&format!(
        r#"{{"tokens":{{
        "account_id":"opaque-account-identifier-123",
        "access_token":"a",
        "refresh_token":"r",
        "id_token":"header.{payload}.signature"}}}}"#
    ));
    assert_eq!(login_label(&with_jwt), "a***@example.com");
    let without_jwt = j(r#"{"OPENAI_API_KEY":"first-login-identity-0001"}"#);
    assert_eq!(login_label(&without_jwt), "account-***0001");
}

#[test]
fn settings_survive_reload_and_reject_excess_capacity() {
    let store = Disk::new(None, 6).store();
    assert_eq!(store.limit(Some(b"4"), 2), Ok(4));
    assert!(store.limit(Some(b"7"), 2).is_err());
}

#[test]
fn first_account_can_be_activated_without_an_existing_login() {
    let credentials = r#"{"OPENAI_API_KEY":"first-account-0001"}"#;
    let mut disk = Disk::new(None, 6);
    disk.add("first", credentials).unwrap();
    disk.activate("first").unwrap();
    assert_eq!(disk.active(), canonical(credentials));
    assert_eq!(
        disk.list(),
        canonical(
            r#"{
            "profiles": [{"name":"first","account":"account-***0001","active":true,"valid":true}],
            "current": "account-***0001"
        }"#
        )
    );
}

#[test]
fn malformed_saved_profile_can_be_deleted_without_removing_active_credentials() {
    let active = r#"{"OPENAI_API_KEY":"active-credential"}"#;
    let mut disk = Disk::new(Some(active), 2);
    disk.profiles
        .push(("broken".to_string(), read_auth(b"{invalid").map_err(|e| e.message())));
    disk.delete("broken").unwrap();
    assert_eq!(disk.names(), Vec::<String>::new());
    assert_eq!(disk.active(), canonical(active));
}

#[test]
fn reauthorization_replaces_revoked_tokens_and_preserves_profile_name() {
    let old = r#"{"tokens":{"account_id":"same-account","access_token":"revoked","refresh_token":"old-refresh","id_token":"old-id"}}"#;
    let fresh = r#"{"tokens":{"account_id":"same-account","access_token":"fresh","refresh_token":"new-refresh","id_token":"new-id"}}"#;
    let mut disk = Disk::new(Some(old), 2);
    disk.add("plus-1", old).unwrap();
    let result = disk
        .save_login("plus-5", fresh, |disk, value| {
            disk.auth = Some(value);
            true
        })
        .unwrap()
        .unwrap();
    assert_eq!(
        result.to_text(),
        canonical(r#"{"ok":true,"profile":"plus-1","updated":true,"active":true}"#)
    );
    assert_eq!(disk.names(), vec!["plus-1"]);
    assert_eq!(
        (disk.active(), disk.saved("plus-1")),
        (canonical(fresh), canonical(fresh))
    );
}

#[test]
fn reauthorization_of_inactive_account_does_not_replace_current_login() {
    let active = r#"{"OPENAI_API_KEY":"another-account"}"#;
    let fresh = r#"{"tokens":{"account_id":"saved-account","access_token":"fresh","refresh_token":"refresh","id_token":"id"}}"#;
    let mut disk = Disk::new(Some(active), 2);
    disk.add("saved", fresh).unwrap();
    let result = disk
        .save_login("new-label", fresh, |_, _| panic!("must not activate"))
        .unwrap()
        .unwrap();
    assert_eq!(
        result.to_text(),
        canonical(r#"{"ok":true,"profile":"saved","updated":true,"active":false}"#)
    );
    assert_eq!(disk.active(), canonical(active));
    assert_eq!(disk.names(), vec!["saved"]);
}

#[test]
fn reauthorization_keeps_fresh_profile_when_active_replacement_is_busy() {
    let old = r#"{"tokens":{"account_id":"same","access_token":"old","refresh_token":"old","id_token":"old"}}"#;
    let fresh = r#"{"tokens":{"account_id":"same","access_token":"fresh","refresh_token":"fresh","id_token":"fresh"}}"#;
    let mut disk = Disk::new(Some(old), 2);
    disk.add("saved", old).unwrap();
    assert!(disk
        .save_login("saved", fresh, |_, _| false)
        .unwrap()
        .is_none());
    assert_eq!(
        (disk.active(), disk.saved("saved")),
        (canonical(old), canonical(fresh))
    );
}

#[test]
fn first_saved_profile_uses_fresh_login_instead_of_stale_active_tokens() {
    let old = r#"{"tokens":{"account_id":"same","access_token":"old","refresh_token":"old","id_token":"old"}}"#;
    let fresh = r#"{"tokens":{"account_id":"same","access_token":"fresh","refresh_token":"fresh","id_token":"fresh"}}"#;
    let mut disk = Disk::new(Some(old), 2);
    let result = disk
        .save_login("first", fresh, |disk, value| {
            disk.auth = Some(value);
            true
        })
        .unwrap()
        .unwrap();
    assert_eq!(
        result.to_text(),
        canonical(r#"{"ok":true,"profile":"first","updated":false,"active":true}"#)
    );
    assert_eq!(
        (disk.active(), disk.saved("first")),
        (canonical(fresh), canonical(fresh))
    );
}

#[test]
fn credentials_that_were_never_saved_are_kept_under_a_digest() {
    let mut disk = Disk::new(Some(FIRST), 6);
    disk.add("b", SECOND).unwrap();
    disk.activate("b").unwrap();
    let kept: Vec<String> = disk.names();
    assert_eq!(kept.len(), 2);
    assert!(kept[1].starts_with("saved-") && kept[1].len() == 18);
    assert_eq!(disk.saved(&kept[1]), canonical(FIRST));
    // Back and forth again no further account appears.
    disk.activate(&kept[1]).unwrap();
    disk.activate("b").unwrap();
    assert_eq!(disk.names(), kept);
    disk.activate("b").unwrap();
    assert_eq!(disk.active(), canonical(SECOND));
}

#[test]
fn each_refusal_of_the_store_is_told_apart() {
    let mut disk = Disk::new(Some(FIRST), 6);
    assert_eq!(disk.add("", FIRST), Err(StoreError::BadName));
    assert_eq!(disk.add("a", "[]"), Err(StoreError::Incomplete));
    let large = format!(r#"{{"OPENAI_API_KEY":"{}"}}"#, "k".repeat(65536));
    assert_eq!(disk.add("a", &large), Err(StoreError::TooLarge));
    disk.add("a", FIRST).unwrap();
    assert_eq!(disk.add("b", FIRST), Err(StoreError::AlreadySaved));
    assert_eq!(disk.add("a", SECOND), Err(StoreError::NameTaken));
    assert_eq!(
        disk.save_login("a", SECOND, |_, _| true).unwrap_err(),
        StoreError::NameTaken
    );
    assert_eq!(disk.delete("a"), Err(StoreError::InUse));
    assert_eq!(disk.delete("missing"), Err(StoreError::Missing));
    assert_eq!(disk.delete("no/name"), Err(StoreError::BadProfileName));
    assert_eq!(disk.activate("missing"), Err(StoreError::Missing));
    disk.profiles
        .push(("broken".to_string(), Err("cannot be read".to_string())));
    assert_eq!(
        disk.activate("broken"),
        Err(StoreError::Unreadable("cannot be read".to_string()))
    );
    let mut store = disk.store();
    store.active = Active::Unreadable("denied".to_string());
    assert_eq!(
        store.activate("a").unwrap_err(),
        StoreError::Unreadable("denied".to_string())
    );
    assert_eq!(store.limit(Some(b"7"), 2), Err(StoreError::LimitRange));
    assert_eq!(store.limit(Some(b"0"), 2), Err(StoreError::LimitRange));
    let words = serde_json::from_slice::<usize>(b"\"4\"")
        .unwrap_err()
        .to_string();
    let error = store.limit(Some(b"\"4\""), 2).unwrap_err();
    assert_eq!(error.message(), words);
    assert!(words.contains("invalid type: string"));
    assert_eq!(store.limit(None, 2), Ok(2));
    for i in 0..62 {
        disk.add(&format!("p{i}"), &format!(r#"{{"OPENAI_API_KEY":"key-{i}"}}"#))
            .unwrap();
    }
    assert_eq!(
        disk.add("last", r#"{"OPENAI_API_KEY":"one-more"}"#),
        Err(StoreError::TooMany)
    );
}

#[test]
fn directories_are_listed_in_order_and_only_where_they_can_be_accounts() {
    let entries = vec![
        ("b".to_string(), true),
        ("file".to_string(), false),
        (".login-1".to_string(), true),
        ("A-1".to_string(), true),
        ("a".to_string(), true),
    ];
    assert_eq!(names(&entries).unwrap(), vec!["A-1", "a", "b"]);
    let many: Vec<(String, bool)> = (0..65).map(|i| (format!("n{i}"), true)).collect();
    assert_eq!(names(&many).unwrap_err(), StoreError::TooMany);
}

#[test]
fn capacity_is_capped() {
    assert_eq!(Disk::new(None, 100).store().capacity, 32);
    assert_eq!(Disk::new(None, 3).store().capacity, 3);
}

#[test]
fn names_are_short_and_plain() {
    assert!(valid_name("abc_DEF-123"));
    assert!(valid_name(&"n".repeat(64)));
    for bad in ["", "a b", "a.b", "é", &"n".repeat(65)] {
        assert!(!valid_name(bad));
    }
}

#[test]
fn identity_prefers_the_account_even_where_it_is_no_text() {
    assert_eq!(
        identity(&j(r#"{"tokens":{"account_id":"x"},"OPENAI_API_KEY":"y"}"#)),
        "x"
    );
    assert_eq!(
        identity(&j(r#"{"tokens":{"account_id":null},"OPENAI_API_KEY":"y"}"#)),
        ""
    );
    assert_eq!(identity(&j(r#"{"tokens":{},"OPENAI_API_KEY":"y"}"#)), "y");
    assert_eq!(identity(&j("{}")), "");
}

#[test]
fn masks_show_a_letter_and_a_domain_or_a_tail() {
    assert_eq!(masked_account("bob@x@y"), "b***@x@y");
    assert_eq!(masked_account("@x"), "****@x");
    assert_eq!(masked_account("12345678"), "account-***5678");
    assert_eq!(masked_account("1234567"), "account-***");
    // Eight bytes, but fewer characters than are shown.
    assert_eq!(masked_account("日本語"), "account-***日本語");
}

#[test]
fn tokens_are_read_padded_or_not_and_only_for_addresses() {
    let token = |payload: &str| {
        id_token_email(&j(&format!(
            r#"{{"tokens":{{"id_token":"h.{payload}.s"}}}}"#
        )))
    };
    let padded = base64::engine::general_purpose::URL_SAFE.encode(br#"{"email":"a@b"}"#);
    assert_eq!(token(&padded), Some("a@b".to_string()));
    let plain = base64::engine::general_purpose::URL_SAFE_NO_PAD.encode(br#"{"email":"ab"}"#);
    assert_eq!(token(&plain), None);
    assert_eq!(token("%%%"), None);
    assert_eq!(id_token_email(&j(r#"{"tokens":{"id_token":"only"}}"#)), None);
}

#[test]
fn credentials_are_complete_with_a_key_or_with_all_tokens() {
    assert_eq!(validate_auth(&j(FIRST)), Ok(()));
    assert_eq!(validate_auth(&j(SECOND)), Ok(()));
    for incomplete in [
        r#"{"OPENAI_API_KEY":"  "}"#,
        r#"{"tokens":{"account_id":"a","access_token":"a","refresh_token":"r"}}"#,
        r#""text""#,
    ] {
        assert_eq!(validate_auth(&j(incomplete)), Err(StoreError::Incomplete));
    }
    assert!(read_auth(FIRST.as_bytes()).is_ok());
    assert_eq!(
        read_auth(b"{").unwrap_err().message(),
        serde_json::from_reader::<_, serde_json::Value>(&b"{"[..])
            .unwrap_err()
            .to_string()
    );
    assert_eq!(
        read_auth(&vec![b' '; 65537]).unwrap_err(),
        StoreError::Malformed
    );
}
