//! Locale selection: the current locale, mutable at runtime, and an
//! optional fallback locale fixed at setup time. Resolution looks the key
//! up under the chosen locale, then under the fallback, and finally echoes
//! the key itself, so a missing translation never fails a call site.

use vstd::prelude::*;

use crate::backend::{spec_translate, view_opt, Backend, SpecTable};

verus! {

/// What the fallback policy yields for one lookup.
pub open spec fn spec_resolve(
    t: SpecTable,
    locale: Seq<char>,
    fallback: Option<Seq<char>>,
    key: Seq<char>,
) -> Seq<char> {
    match spec_translate(t, locale, key) {
        Some(v) => v,
        None => match fallback {
            Some(f) => match spec_translate(t, f, key) {
                Some(v) => v,
                None => key,
            },
            None => key,
        },
    }
}

/// The locale chosen at start-up: the host's hint when one is available,
/// else the fixed default.
pub open spec fn initial_locale(hint: Option<String>) -> Seq<char> {
    match hint {
        Some(h) => h@,
        None => "en-US"@,
    }
}

/// The current-locale state of one process, modeled as an explicit value so
/// that callers needing isolation can hold one resolver each.
pub struct LocaleResolver {
    current: String,
    fallback: Option<String>,
}

impl LocaleResolver {
    /// The locale lookups go through first.
    pub closed spec fn current_locale(&self) -> Seq<char> {
        self.current@
    }

    /// The locale consulted when the first lookup misses, if one was
    /// configured at setup time.
    pub closed spec fn fallback_locale(&self) -> Option<Seq<char>> {
        view_opt(self.fallback)
    }

    /// Create a resolver from the host's locale hint, if any, and the
    /// fallback locale fixed for the rest of the process.
    pub fn new(hint: Option<String>, fallback: Option<String>) -> (r: Self)
        ensures
            r.current_locale() == initial_locale(hint),
            r.fallback_locale() == view_opt(fallback),
    {
        let current = match hint {
            Some(h) => h,
            None => "en-US".to_owned(),
        };
        LocaleResolver { current, fallback }
    }

    /// Set the current locale.
    pub fn set_locale(&mut self, locale: &str)
        ensures
            final(self).current_locale() == locale@,
            final(self).fallback_locale() == old(self).fallback_locale(),
    {
        self.current = locale.to_owned();
    }

    /// Get the current locale.
    pub fn locale(&self) -> (r: String)
        ensures
            r@ == self.current_locale(),
    {
        self.current.clone()
    }

    /// Resolve a key under an explicit locale, bypassing the current one:
    /// the stored text for (locale, key), else the fallback locale's text,
    /// else the key itself.
    pub fn resolve_with<B: Backend>(&self, backend: &B, locale: &str, key: &str) -> (r: String)
        requires
            backend.inv(),
        ensures
            r@ == spec_resolve(backend.table(), locale@, self.fallback_locale(), key@),
    {
        match backend.translate(locale, key) {
            Some(v) => v,
            None => match &self.fallback {
                Some(f) => match backend.translate(f.as_str(), key) {
                    Some(v) => v,
                    None => key.to_owned(),
                },
                None => key.to_owned(),
            },
        }
    }

    /// Resolve a key under the current locale.
    pub fn resolve<B: Backend>(&self, backend: &B, key: &str) -> (r: String)
        requires
            backend.inv(),
        ensures
            r@ == spec_resolve(backend.table(), self.current_locale(), self.fallback_locale(), key@),
    {
        let cur = self.current.clone();
        self.resolve_with(backend, cur.as_str(), key)
    }
}

/// Law: when the chosen locale has no entry for the key but the fallback
/// locale has one, resolution returns the fallback's text.
pub proof fn lemma_fallback_consulted(
    t: SpecTable,
    locale: Seq<char>,
    fb: Seq<char>,
    key: Seq<char>,
    v: Seq<char>,
)
    requires
        spec_translate(t, locale, key) is None,
        spec_translate(t, fb, key) == Some(v),
    ensures
        spec_resolve(t, locale, Some(fb), key) == v,
{
}

/// Law: when neither the chosen locale nor any configured fallback has an
/// entry for the key, resolution echoes the key itself, never an error.
pub proof fn lemma_missing_echoes_key(
    t: SpecTable,
    locale: Seq<char>,
    fallback: Option<Seq<char>>,
    key: Seq<char>,
)
    requires
        spec_translate(t, locale, key) is None,
        fallback matches Some(f) ==> spec_translate(t, f, key) is None,
    ensures
        spec_resolve(t, locale, fallback, key) == key,
{
}

} // verus!
