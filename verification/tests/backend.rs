use i18n_core::backend::{Backend, BackendExt, CombinedBackend, SimpleBackend};
use i18n_core::resolver::LocaleResolver;

fn pairs(data: &[(&str, &str)]) -> Vec<(String, String)> {
    data.iter().map(|(k, v)| (k.to_string(), v.to_string())).collect()
}

#[test]
fn test_simple_backend() {
    let mut backend = SimpleBackend::new();
    let data = pairs(&[("hello", "Hello"), ("foo", "Foo bar")]);
    backend.add_translations("en", &data);

    let data_cn = pairs(&[("hello", "你好"), ("foo", "Foo 测试")]);
    backend.add_translations("zh-CN", &data_cn);

    assert_eq!(backend.translate("en", "hello"), Some("Hello".to_owned()));
    assert_eq!(backend.translate("en", "foo"), Some("Foo bar".to_owned()));
    assert_eq!(backend.translate("zh-CN", "hello"), Some("你好".to_owned()));
    assert_eq!(backend.translate("zh-CN", "foo"), Some("Foo 测试".to_owned()));

    assert_eq!(backend.available_locales(), vec!["en", "zh-CN"]);
}

#[test]
fn test_combined_backend() {
    let mut backend = SimpleBackend::new();
    let data = pairs(&[("hello", "Hello"), ("foo", "Foo bar")]);
    backend.add_translations("en", &data);

    let data_cn = pairs(&[("hello", "你好"), ("foo", "Foo 测试")]);
    backend.add_translations("zh-CN", &data_cn);

    let mut backend2 = SimpleBackend::new();
    let data2 = pairs(&[("hello", "Hello2")]);
    backend2.add_translations("en", &data2);

    let data_cn2 = pairs(&[("hello", "你好 2")]);
    backend2.add_translations("zh-CN", &data_cn2);

    let mut combined = backend.extend(backend2);
    assert_eq!(combined.translate("en", "hello"), Some("Hello2".to_owned()));
    assert_eq!(combined.translate("zh-CN", "hello"), Some("你好 2".to_owned()));

    assert_eq!(combined.available_locales(), vec!["en", "zh-CN"]);

    let mut suitable = vec![];

    combined.add("tr-TR", "hello from somewhere", "Buradan merhaba");

    let locale = LocaleResolver::new(None, None).locale();
    for available in combined.available_locales() {
        if locale.clone().contains(&available) {
            suitable.push(available);
        }
    }

    for available in combined.available_locales() {
        if locale.clone().starts_with(&available) {
            suitable.push(available);
        }
    }

    let _default = suitable.first().unwrap_or(&"en".to_owned()).to_string();
}

#[test]
fn add_then_translate_returns_value() {
    let mut backend = SimpleBackend::new();
    backend.add("tr-TR", "messages.deep.key", "çok derin");
    assert_eq!(
        backend.translate("tr-TR", "messages.deep.key"),
        Some("çok derin".to_owned())
    );
    assert_eq!(backend.translate("tr", "messages.deep.key"), None);
    assert_eq!(backend.translate("tr-TR", "messages.deep"), None);
}

#[test]
fn add_overwrites_earlier_value() {
    let mut backend = SimpleBackend::new();
    backend.add("en", "greeting", "first");
    backend.add("en", "greeting", "second");
    assert_eq!(backend.translate("en", "greeting"), Some("second".to_owned()));
}

#[test]
fn add_translations_later_pair_wins() {
    let mut backend = SimpleBackend::new();
    let data = pairs(&[("k", "old"), ("k", "new")]);
    backend.add_translations("en", &data);
    assert_eq!(backend.translate("en", "k"), Some("new".to_owned()));
}

#[test]
fn combined_add_writes_through_to_both_legs() {
    let base = SimpleBackend::new();
    let ext = SimpleBackend::new();
    let mut combined = base.extend(ext);
    combined.add("tr-TR", "x", "y");
    assert_eq!(combined.0.translate("tr-TR", "x"), Some("y".to_owned()));
    assert_eq!(combined.1.translate("tr-TR", "x"), Some("y".to_owned()));
    assert_eq!(combined.translate("tr-TR", "x"), Some("y".to_owned()));
}

#[test]
fn combined_locales_deduplicated_union() {
    let mut base = SimpleBackend::new();
    base.add("en", "a", "1");
    base.add("de", "a", "2");
    let mut ext = SimpleBackend::new();
    ext.add("en", "a", "3");
    ext.add("zh-CN", "a", "4");
    let combined = base.extend(ext);
    assert_eq!(combined.available_locales(), vec!["de", "en", "zh-CN"]);
}

#[test]
fn nested_composition_rightmost_wins() {
    let mut a = SimpleBackend::new();
    a.add("en", "k", "from a");
    let mut b = SimpleBackend::new();
    b.add("en", "k", "from b");
    let mut c = SimpleBackend::new();
    c.add("en", "k", "from c");
    let nested = CombinedBackend(a.extend(b), c);
    assert_eq!(nested.translate("en", "k"), Some("from c".to_owned()));
}
