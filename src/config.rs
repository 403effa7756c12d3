use vstd::prelude::*;

verus! {

#[verifier::external_type_specification]
#[verifier::external_body]
#[verifier::reject_recursive_types(K)]
#[verifier::reject_recursive_types(V)]
pub struct ExTomlMap<K, V>(toml::map::Map<K, V>);

#[verifier::external_type_specification]
#[verifier::external_body]
pub struct ExTomlValue(toml::Value);

#[verifier::external_type_specification]
#[verifier::external_body]
pub struct ExTomlError(toml::de::Error);

/// Whether `s` is a TOML document whose top level is a table.
pub uninterp spec fn toml_parses(s: Seq<char>) -> bool;

/// What the TOML document `s` holds at its top level: each key, with the
/// integer under it, or `None` when the value there is not an integer.
pub uninterp spec fn toml_entries(s: Seq<char>) -> Map<Seq<char>, Option<i64>>;

/// What a parsed table holds at its top level, in the same form as
/// `toml_entries`.
pub uninterp spec fn table_entries(t: toml::Table) -> Map<Seq<char>, Option<i64>>;

/// Relies on `toml::Table`'s `FromStr`: it succeeds exactly on a TOML document,
/// and whether it does, and what the table holds, depend on the text alone.
#[verifier::external_body]
fn parse_table(s: &str) -> (r: Result<toml::Table, toml::de::Error>)
    ensures
        r is Ok <==> toml_parses(s@),
        r is Ok ==> table_entries(r->Ok_0) == toml_entries(s@),
{
    s.parse::<toml::Table>()
}

/// Looks `key` up in `m`: absent, or present with its integer (if any).
pub open spec fn entry_of(m: Map<Seq<char>, Option<i64>>, key: Seq<char>) -> Option<Option<i64>> {
    if m.contains_key(key) {
        Some(m[key])
    } else {
        None
    }
}

/// Relies on `toml::map::Map::get` and `toml::Value::as_integer`: `None` when
/// the table has no value under `key`, else the integer, if the value is one.
#[verifier::external_body]
fn table_get_integer(t: &toml::Table, key: &str) -> (r: Option<Option<i64>>)
    ensures
        r == entry_of(table_entries(*t), key@),
{
    match t.get(key) {
        None => None,
        Some(v) => Some(v.as_integer()),
    }
}

/// Why a width configuration could not be used.
#[derive(Debug)]
pub enum ConfigError {
    /// The text is not a TOML table.
    Parse(toml::de::Error),
    /// `max_width` is present but not an integer.
    NotInteger,
    /// `max_width` is an integer that does not fit in `usize`.
    OutOfRange(i64),
}


/// `r` is what an entry found under `max_width` means: nothing configured
/// when it is absent, an error when it is not an integer or does not fit in
/// `usize`, else that width.
pub open spec fn setting_is(entry: Option<Option<i64>>, r: Result<Option<usize>, ConfigError>) -> bool {
    match entry {
        None => r matches Ok(None),
        Some(None) => r matches Err(ConfigError::NotInteger),
        Some(Some(n)) => if 0 <= n <= usize::MAX {
            r matches Ok(Some(w)) && w == n
        } else {
            r matches Err(ConfigError::OutOfRange(m)) && m == n
        },
    }
}

/// Reads the configured maximum width from what the configuration holds under
/// `max_width`: absent means none; an integer must fit in `usize`.
pub fn max_width_setting(entry: Option<Option<i64>>) -> (r: Result<Option<usize>, ConfigError>)
    ensures
        setting_is(entry, r),
{
    match entry {
        None => Ok(None),
        Some(None) => Err(ConfigError::NotInteger),
        Some(Some(n)) => {
            if n < 0 || n as u64 > usize::MAX as u64 {
                Err(ConfigError::OutOfRange(n))
            } else {
                Ok(Some(n as usize))
            }
        },
    }
}

/// The maximum width that the configuration text `contents` sets under
/// `max_width`. Fails with `Parse` exactly when the text is not TOML;
/// otherwise the result is what the entry under `max_width` means.
pub fn max_width_from_config(contents: &str) -> (r: Result<Option<usize>, ConfigError>)
    ensures
        !toml_parses(contents@) ==> r matches Err(ConfigError::Parse(_)),
        toml_parses(contents@) ==> setting_is(entry_of(toml_entries(contents@), "max_width"@), r),
{
    let table = match parse_table(contents) {
        Ok(table) => table,
        Err(e) => {
            return Err(ConfigError::Parse(e));
        },
    };
    let entry = table_get_integer(&table, "max_width");
    max_width_setting(entry)
}

} // verus!
