use i18n_core::backend::{Backend, SimpleBackend};
use i18n_core::resolver::LocaleResolver;

#[test]
fn default_locale_without_hint() {
    let resolver = LocaleResolver::new(None, None);
    assert_eq!(resolver.locale(), "en-US".to_owned());
}

#[test]
fn hint_becomes_initial_locale() {
    let resolver = LocaleResolver::new(Some("zh-CN".to_owned()), None);
    assert_eq!(resolver.locale(), "zh-CN".to_owned());
}

#[test]
fn set_locale_changes_current() {
    let mut resolver = LocaleResolver::new(None, None);
    resolver.set_locale("tr-TR");
    assert_eq!(resolver.locale(), "tr-TR".to_owned());
}

#[test]
fn fallback_locale_is_consulted() {
    let mut backend = SimpleBackend::new();
    backend.add("en", "k", "V");
    let mut resolver = LocaleResolver::new(None, Some("en".to_owned()));
    resolver.set_locale("fr");
    assert_eq!(resolver.resolve(&backend, "k"), "V".to_owned());
}

#[test]
fn missing_key_echoes_key() {
    let backend = SimpleBackend::new();
    let mut resolver = LocaleResolver::new(None, None);
    resolver.set_locale("fr");
    assert_eq!(resolver.resolve(&backend, "k"), "k".to_owned());
}

#[test]
fn current_locale_wins_over_fallback() {
    let mut backend = SimpleBackend::new();
    backend.add("fr", "k", "valeur");
    backend.add("en", "k", "value");
    let mut resolver = LocaleResolver::new(None, Some("en".to_owned()));
    resolver.set_locale("fr");
    assert_eq!(resolver.resolve(&backend, "k"), "valeur".to_owned());
}

#[test]
fn explicit_locale_bypasses_current() {
    let mut backend = SimpleBackend::new();
    backend.add("de", "k", "Wert");
    let resolver = LocaleResolver::new(Some("en".to_owned()), None);
    assert_eq!(resolver.resolve_with(&backend, "de", "k"), "Wert".to_owned());
    assert_eq!(resolver.locale(), "en".to_owned());
}
