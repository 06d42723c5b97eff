use langtree::translator::{Example, Variant};
use langtree::auth::{get_token_from_req, AuthError, JwtCred, SignInData, SignUpData};
use langtree::catalog::{get_languages, ChangePageOptions, CreateCourse, GetAllCoursesFilter, Language, PageChange, UpdateLesson};

#[test]
fn sign_in_validation() {
    let ok = SignInData { email: "user@example.com".to_string(), password: "x".to_string() };
    assert!(ok.validate());
    let empty = SignInData { email: "user@example.com".to_string(), password: String::new() };
    assert!(!empty.validate());
    let bad = SignInData { email: "test".to_string(), password: "secret".to_string() };
    assert!(!bad.validate());
}

#[test]
fn sign_up_validation() {
    let ok = SignUpData { email: "a@b.com".to_string(), username: "sixsix".to_string(), password: "123456".to_string() };
    assert!(ok.validate());
    let short = SignUpData { email: "a@b.com".to_string(), username: "five5".to_string(), password: "123456".to_string() };
    assert!(!short.validate());
    let short_pw = SignUpData { email: "a@b.com".to_string(), username: "sixsix".to_string(), password: "12345".to_string() };
    assert!(!short_pw.validate());
    let unicode = SignUpData { email: "a@b.com".to_string(), username: "ßßßßßß".to_string(), password: "123456".to_string() };
    assert!(unicode.validate());
}

#[test]
fn title_validation() {
    assert!(CreateCourse { title: "t".to_string(), language: Language::De }.validate());
    assert!(!CreateCourse { title: String::new(), language: Language::De }.validate());
    let lesson = UpdateLesson { id: 1, title: String::new(), cover_path: None, subject: None };
    assert!(!lesson.validate());
}

#[test]
fn token_extraction() {
    assert_eq!(get_token_from_req(Some("Bearer abc.def")), Ok("abc.def".to_string()));
    assert_eq!(get_token_from_req(Some("abc")), Ok("abc".to_string()));
    assert_eq!(get_token_from_req(Some("Bearer ")), Ok(String::new()));
    assert_eq!(get_token_from_req(None), Err(AuthError::Unauthorized));
}

#[test]
fn claims_scope() {
    let c = JwtCred { uid: 7, email: "a@b.c".to_string(), scope: "access".to_string() };
    assert_eq!(c.clone().in_scope(&"access".to_string()).unwrap().uid, 7);
    assert!(c.in_scope(&"refresh".to_string()).is_none());
}

#[test]
fn languages_listed() {
    assert_eq!(get_languages(), vec!["De", "En", "Fr", "Ru", "Zh"]);
    assert_eq!(Language::all().len(), 5);
    assert_eq!(Language::Ru.name(), "Ru");
}

#[test]
fn page_changes() {
    assert_eq!(ChangePageOptions { page: 5 }.page_change(20), PageChange::Turned { page: 5, progress: 25 });
    assert_eq!(ChangePageOptions { page: 1 }.page_change(3), PageChange::Turned { page: 1, progress: 33 });
    assert_eq!(ChangePageOptions { page: 20 }.page_change(20), PageChange::Finished);
    assert_eq!(ChangePageOptions { page: -1 }.page_change(20), PageChange::Finished);
    assert_eq!(ChangePageOptions { page: 0 }.page_change(0), PageChange::Finished);
}

#[test]
fn subscriptions_filter() {
    assert!(GetAllCoursesFilter { subscriptions: Some(true) }.only_subscriptions());
    assert!(!GetAllCoursesFilter { subscriptions: Some(false) }.only_subscriptions());
    assert!(!GetAllCoursesFilter { subscriptions: None }.only_subscriptions());
}

#[test]
fn translator_records_default_empty() {
    let v = Variant::default();
    assert!(!v.featured);
    assert!(v.translations.is_empty());
    assert_eq!(Example { src: "a".to_string(), dst: "b".to_string() }.dst, "b");
}
