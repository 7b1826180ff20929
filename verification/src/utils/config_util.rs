//! User configuration: `section.name` keys in an INI document, read and
//! written through `rust-ini`.
use ini::Ini;
use vstd::prelude::*;

use crate::error::TigError;
use crate::utils::text_util::{chars_of, index_of, lemma_index_of, lemma_index_of_at};

verus! {

/// `ini::Ini`, an INI document.
#[verifier::external_type_specification]
#[verifier::external_body]
pub struct ExIni(Ini);

/// What an INI document answers for each section and key: the first value of
/// the key in the first section of that name (`None` is the general section).
pub uninterp spec fn ini_entries(ini: Ini) -> Map<(Option<Seq<char>>, Seq<char>), Seq<char>>;

/// `ini.with_section(Some(section)).set(key, value)`. Claimed, as the source
/// shows (the first section of that name, created if missing, has every value
/// of `key` replaced by `value`): the document answers `value` for
/// `(section, key)` and what it answered before for every other pair.
#[verifier::external_body]
fn ini_set(ini: &mut Ini, section: &str, key: &str, value: &str)
    ensures
        ini_entries(*final(ini)) == ini_entries(*old(ini)).insert((Some(section@), key@), value@),
{
    ini.with_section(Some(section)).set(key, value);
}

/// `ini.get_from(Some(section), key)`, owned. Claimed: the result is what the
/// document answers for `(section, key)`.
#[verifier::external_body]
fn ini_get(ini: &Ini, section: &str, key: &str) -> (r: Option<String>)
    ensures
        match r {
            Some(v) => ini_entries(*ini).contains_key((Some(section@), key@)) && ini_entries(
                *ini,
            )[(Some(section@), key@)] == v@,
            None => !ini_entries(*ini).contains_key((Some(section@), key@)),
        },
{
    ini.get_from(Some(section), key).map(str::to_owned)
}

/// A key split at its first `.` into section and name, if it has one.
pub open spec fn split_key(key: Seq<char>) -> Option<(Seq<char>, Seq<char>)> {
    match index_of(key, '.') {
        Some(i) => Some((key.take(i), key.skip(i + 1))),
        None => None,
    }
}

/// What `config_get` reads for `key`: `None` for a key without a section,
/// else the configured value, empty where there is none.
pub open spec fn config_lookup(
    entries: Map<(Option<Seq<char>>, Seq<char>), Seq<char>>,
    key: Seq<char>,
) -> Option<Seq<char>> {
    match split_key(key) {
        None => None,
        Some((section, name)) => Some(
            if entries.contains_key((Some(section), name)) {
                entries[(Some(section), name)]
            } else {
                Seq::empty()
            },
        ),
    }
}

/// What `config_set` makes of `entries`: `None` for a key without a section.
pub open spec fn config_update(
    entries: Map<(Option<Seq<char>>, Seq<char>), Seq<char>>,
    key: Seq<char>,
    value: Seq<char>,
) -> Option<Map<(Option<Seq<char>>, Seq<char>), Seq<char>>> {
    match split_key(key) {
        None => None,
        Some((section, name)) => Some(entries.insert((Some(section), name), value)),
    }
}

/// Splits `key` at its first `.` into section and name.
pub fn split_config_key(key: &str) -> (r: Option<(String, String)>)
    ensures
        match split_key(key@) {
            Some((s, n)) => r matches Some((a, b)) && a@ == s && b@ == n,
            None => r is None,
        },
{
    let cs = chars_of(key);
    let mut i: usize = 0;
    while i < cs.len()
        invariant
            cs@ == key@,
            i <= cs@.len(),
            forall|k: int| 0 <= k < i ==> cs@[k] != '.',
        decreases cs.len() - i,
    {
        if cs[i] == '.' {
            proof {
                lemma_index_of_at(key@, '.', i as int);
            }
            let section = key.substring_char(0, i);
            let name = key.substring_char(i + 1, cs.len());
            assert(key@.take(i as int) =~= key@.subrange(0, i as int));
            assert(key@.skip(i + 1) =~= key@.subrange(i + 1, key@.len() as int));
            return Some((String::from_str(section), String::from_str(name)));
        }
        i = i + 1;
    }
    proof {
        lemma_index_of(key@, '.');
        if index_of(key@, '.') is Some {
            let j = index_of(key@, '.')->0;
            assert(cs@[j] == '.');
        }
    }
    None
}

/// Sets `key` (`section.name`) to `value` in `config`.
pub fn config_set(config: &mut Ini, key: &str, value: &str) -> (r: Result<(), TigError>)
    ensures
        match config_update(ini_entries(*old(config)), key@, value@) {
            Some(m) => r is Ok && ini_entries(*final(config)) == m,
            None => (r matches Err(TigError::UnknownConfigKey(k)) && k@ == key@) && *final(config)
                == *old(config),
        },
{
    let (section, name) = match split_config_key(key) {
        Some(parts) => parts,
        None => return Err(TigError::UnknownConfigKey(String::from_str(key))),
    };
    ini_set(config, section.as_str(), name.as_str(), value);
    Ok(())
}

/// The value of `key` (`section.name`) in `config`; empty where it is not set.
pub fn config_get(config: &Ini, key: &str) -> (r: Result<String, TigError>)
    ensures
        match config_lookup(ini_entries(*config), key@) {
            Some(v) => r matches Ok(s) && s@ == v,
            None => r matches Err(TigError::UnknownConfigKey(k)) && k@ == key@,
        },
{
    let (section, name) = match split_config_key(key) {
        Some(parts) => parts,
        None => return Err(TigError::UnknownConfigKey(String::from_str(key))),
    };
    match ini_get(config, section.as_str(), name.as_str()) {
        Some(v) => Ok(v),
        None => Ok(String::new()),
    }
}

/// The configured user name.
pub fn get_author(config: &Ini) -> (r: Result<String, TigError>)
    ensures
        match config_lookup(ini_entries(*config), "user.name"@) {
            Some(v) => if v.len() == 0 {
                r == Err::<String, TigError>(TigError::AuthorNotSet)
            } else {
                r matches Ok(s) && s@ == v
            },
            None => r matches Err(TigError::UnknownConfigKey(_)),
        },
{
    let author = config_get(config, "user.name")?;
    if author.as_str().is_empty() {
        return Err(TigError::AuthorNotSet);
    }
    Ok(author)
}

/// The configured user e-mail.
pub fn get_email(config: &Ini) -> (r: Result<String, TigError>)
    ensures
        match config_lookup(ini_entries(*config), "user.email"@) {
            Some(v) => if v.len() == 0 {
                r == Err::<String, TigError>(TigError::EmailNotSet)
            } else {
                r matches Ok(s) && s@ == v
            },
            None => r matches Err(TigError::UnknownConfigKey(_)),
        },
{
    let email = config_get(config, "user.email")?;
    if email.as_str().is_empty() {
        return Err(TigError::EmailNotSet);
    }
    Ok(email)
}

/// Reading a key after setting it gives the value that was set, and setting
/// a key leaves every key of another section or name as it was.
pub proof fn law_config_get_after_set(
    entries: Map<(Option<Seq<char>>, Seq<char>), Seq<char>>,
    key: Seq<char>,
    value: Seq<char>,
    other: Seq<char>,
)
    requires
        split_key(key) is Some,
    ensures
        config_lookup(config_update(entries, key, value)->0, key) == Some(value),
        split_key(other) != split_key(key) ==> config_lookup(
            config_update(entries, key, value)->0,
            other,
        ) == config_lookup(entries, other),
{
}

} // verus!
