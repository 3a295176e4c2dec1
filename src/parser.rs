//! Building an encoding from a TOML document that lists the alphabet and
//! the normalisation table:
//!
//! ```toml
//! alphabet = ["a", "b", "c"]
//! [mapping]
//! A = "a"
//! ```

use crate::encoding::Encoding;
use crate::error::{ConfigError, ConfigFault, Error};
use crate::text::chars_of;
use vstd::prelude::*;
use vstd::string::StringExecFns;

verus! {

/// A value inside the list or the table of a top-level key.
#[derive(Clone, PartialEq, Eq, Debug)]
pub enum ConfigItem {
    /// A string.
    Text(String),
    /// Any other value, by the name of its TOML type.
    Other(String),
}

/// The value of a top-level key of a configuration document.
#[derive(Clone, PartialEq, Eq, Debug)]
pub enum ConfigValue {
    /// An array.
    List(Vec<ConfigItem>),
    /// A table, with its keys in the order in which the document is read.
    Table(Vec<(String, ConfigItem)>),
    /// Any other value, by the name of its TOML type.
    Other(String),
}

/// The top-level entries of the TOML document `text`, or `None` where the
/// text is not TOML.
pub uninterp spec fn toml_document(text: Seq<char>) -> Option<Vec<(String, ConfigValue)>>;

/// Relies on `toml::Table`'s `FromStr` (toml's document parser) to read
/// `text`; the result is a function of the text alone, the keys of each
/// table coming in toml's own order. Strings are kept, every other value
/// inside an array or a table is given by `toml::Value::type_str`.
#[verifier::external_body]
fn parse_toml(text: &str) -> (r: Option<Vec<(String, ConfigValue)>>)
    ensures
        r == toml_document(text@),
{
    let table: toml::Table = text.parse().ok()?;
    let item = |v: &toml::Value| match v {
        toml::Value::String(s) => ConfigItem::Text(s.clone()),
        v => ConfigItem::Other(v.type_str().into()),
    };
    Some(table.iter().map(|(k, v)| (k.clone(), match v {
        toml::Value::Array(a) => ConfigValue::List(a.iter().map(item).collect()),
        toml::Value::Table(t) => ConfigValue::Table(t.iter().map(|(k, v)| (k.clone(), item(v))).collect()),
        v => ConfigValue::Other(v.type_str().into()),
    })).collect())
}

/// The value of the first entry of `doc` under `key`.
pub open spec fn lookup(doc: Seq<(String, ConfigValue)>, key: Seq<char>) -> Option<ConfigValue>
    decreases doc.len(),
{
    if doc.len() == 0 {
        None
    } else {
        match lookup(doc.drop_last(), key) {
            Some(v) => Some(v),
            None => if doc.last().0@ == key {
                Some(doc.last().1)
            } else {
                None
            },
        }
    }
}

/// The single character of `s`.
pub open spec fn text_char(s: Seq<char>) -> Result<char, ConfigFault> {
    if s.len() == 1 {
        Ok(s[0])
    } else if s.len() == 0 {
        Err(ConfigFault::NotChar("Can not get char from empty string"@))
    } else {
        Err(ConfigFault::NotChar("String '"@ + s + "' is more than just a single char"@))
    }
}

/// The single character of a string item.
pub open spec fn item_char(item: ConfigItem) -> Result<char, ConfigFault> {
    match item {
        ConfigItem::Text(s) => text_char(s@),
        ConfigItem::Other(t) => Err(ConfigFault::NotChar("Value of type "@ + t@ + " is not a string"@)),
    }
}

/// The characters of a list of items, or the first failure among them.
pub open spec fn item_chars(items: Seq<ConfigItem>) -> Result<Seq<char>, ConfigFault>
    decreases items.len(),
{
    if items.len() == 0 {
        Ok(Seq::empty())
    } else {
        match item_chars(items.drop_last()) {
            Err(f) => Err(f),
            Ok(cs) => match item_char(items.last()) {
                Err(f) => Err(f),
                Ok(c) => Ok(cs.push(c)),
            },
        }
    }
}

/// The pair of characters of a table entry: the key's, then the value's.
pub open spec fn entry_pair(entry: (String, ConfigItem)) -> Result<(char, char), ConfigFault> {
    match text_char(entry.0@) {
        Err(f) => Err(f),
        Ok(x) => match item_char(entry.1) {
            Err(f) => Err(f),
            Ok(y) => Ok((x, y)),
        },
    }
}

/// The pairs of characters of a table, or the first failure among them.
pub open spec fn entry_pairs(entries: Seq<(String, ConfigItem)>) -> Result<
    Seq<(char, char)>,
    ConfigFault,
>
    decreases entries.len(),
{
    if entries.len() == 0 {
        Ok(Seq::empty())
    } else {
        match entry_pairs(entries.drop_last()) {
            Err(f) => Err(f),
            Ok(ps) => match entry_pair(entries.last()) {
                Err(f) => Err(f),
                Ok(p) => Ok(ps.push(p)),
            },
        }
    }
}

/// The name of the shape of a top-level value.
pub open spec fn shape_name(v: ConfigValue) -> Seq<char> {
    match v {
        ConfigValue::List(_) => "array"@,
        ConfigValue::Table(_) => "table"@,
        ConfigValue::Other(t) => t@,
    }
}

/// The alphabet that a document lists: none where the key is absent.
pub open spec fn alphabet_of(doc: Seq<(String, ConfigValue)>) -> Result<Seq<char>, ConfigFault> {
    match lookup(doc, "alphabet"@) {
        None => Ok(Seq::empty()),
        Some(ConfigValue::List(items)) => item_chars(items@),
        Some(v) => Err(ConfigFault::Schema("Key 'alphabet' did not have Array: found "@ + shape_name(v))),
    }
}

/// The normalisation pairs that a document lists: none where the key is
/// absent.
pub open spec fn mapping_pairs_of(doc: Seq<(String, ConfigValue)>) -> Result<
    Seq<(char, char)>,
    ConfigFault,
> {
    match lookup(doc, "mapping"@) {
        None => Ok(Seq::empty()),
        Some(ConfigValue::Table(entries)) => entry_pairs(entries@),
        Some(v) => Err(ConfigFault::Schema("Key 'mapping' did not have Table: found "@ + shape_name(v))),
    }
}

/// The table that inserting `pairs` in order into an empty one gives.
pub open spec fn table_of(pairs: Seq<(char, char)>) -> Map<char, char>
    decreases pairs.len(),
{
    if pairs.len() == 0 {
        Map::empty()
    } else {
        table_of(pairs.drop_last()).insert(pairs.last().0, pairs.last().1)
    }
}

/// `r` is what building an encoding from `doc` gives: the alphabet's failure
/// first, then the table's, else an encoding with that alphabet and table.
pub open spec fn built_from(r: Result<Encoding, Error>, doc: Seq<(String, ConfigValue)>) -> bool {
    match (alphabet_of(doc), mapping_pairs_of(doc)) {
        (Err(f), _) => r matches Err(Error::InvalidConfig(e)) && e@ == f,
        (Ok(_), Err(f)) => r matches Err(Error::InvalidConfig(e)) && e@ == f,
        (Ok(a), Ok(ps)) => r matches Ok(e) && e.wf() && e.alphabet() == a && e.mapping()
            == table_of(ps),
    }
}

/// Whether `s` is `key`.
fn is_key(s: &String, key: &str) -> (r: bool)
    ensures
        r == (s@ == key@),
{
    let a = chars_of(s.as_str());
    let b = chars_of(key);
    if a.len() != b.len() {
        return false;
    }
    let mut i: usize = 0;
    while i < a.len()
        invariant
            a@ == s@,
            b@ == key@,
            a.len() == b.len(),
            i <= a.len(),
            a@.subrange(0, i as int) == b@.subrange(0, i as int),
        decreases a.len() - i,
    {
        if a[i] != b[i] {
            assert(a@[i as int] != b@[i as int]);
            return false;
        }
        assert(a@.subrange(0, i + 1) =~= b@.subrange(0, i + 1));
        i = i + 1;
    }
    assert(a@ =~= a@.subrange(0, i as int));
    assert(b@ =~= b@.subrange(0, i as int));
    true
}

/// The value of the first entry of `doc` under `key`.
fn find<'a>(doc: &'a Vec<(String, ConfigValue)>, key: &str) -> (r: Option<&'a ConfigValue>)
    ensures
        match r {
            Some(v) => lookup(doc@, key@) == Some(*v),
            None => lookup(doc@, key@) is None,
        },
{
    let mut i: usize = 0;
    while i < doc.len()
        invariant
            i <= doc.len(),
            lookup(doc@.subrange(0, i as int), key@) is None,
        decreases doc.len() - i,
    {
        assert(doc@.subrange(0, i + 1).drop_last() =~= doc@.subrange(0, i as int));
        if is_key(&doc[i].0, key) {
            proof {
                lemma_lookup_prefix(doc@, key@, i as int + 1);
            }
            return Some(&doc[i].1);
        }
        i = i + 1;
    }
    assert(doc@.subrange(0, i as int) =~= doc@);
    None
}

/// The single character of `s`.
pub fn string_to_char(s: &String) -> (r: Result<char, ConfigError>)
    ensures
        match (r, text_char(s@)) {
            (Ok(c), Ok(d)) => c == d,
            (Err(e), Err(f)) => e@ == f,
            _ => false,
        },
{
    let cs = chars_of(s.as_str());
    if cs.len() == 1 {
        Ok(cs[0])
    } else if cs.len() == 0 {
        Err(ConfigError::ValueNotChar(String::from_str("Can not get char from empty string")))
    } else {
        Err(
            ConfigError::ValueNotChar(
                String::from_str("String '").concat(s.as_str()).concat(
                    "' is more than just a single char",
                ),
            ),
        )
    }
}

/// The single character of a string item.
pub fn char_from_toml_value(value: &ConfigItem) -> (r: Result<char, ConfigError>)
    ensures
        match (r, item_char(*value)) {
            (Ok(c), Ok(d)) => c == d,
            (Err(e), Err(f)) => e@ == f,
            _ => false,
        },
{
    match value {
        ConfigItem::Text(s) => string_to_char(s),
        ConfigItem::Other(t) => Err(
            ConfigError::ValueNotChar(
                String::from_str("Value of type ").concat(t.as_str()).concat(" is not a string"),
            ),
        ),
    }
}

/// The name of the shape of a top-level value.
fn shape_of(v: &ConfigValue) -> (r: &str)
    ensures
        r@ == shape_name(*v),
{
    match v {
        ConfigValue::List(_) => "array",
        ConfigValue::Table(_) => "table",
        ConfigValue::Other(t) => t.as_str(),
    }
}

/// The alphabet that `root_table` lists, in order.
pub fn parse_alphabet(root_table: &Vec<(String, ConfigValue)>) -> (r: Result<Vec<char>, ConfigError>)
    ensures
        match (r, alphabet_of(root_table@)) {
            (Ok(v), Ok(a)) => v@ == a,
            (Err(e), Err(f)) => e@ == f,
            _ => false,
        },
{
    let items = match find(root_table, "alphabet") {
        None => return Ok(Vec::new()),
        Some(ConfigValue::List(items)) => items,
        Some(v) => {
            return Err(
                ConfigError::SchemaError(
                    String::from_str("Key 'alphabet' did not have Array: found ").concat(
                        shape_of(v),
                    ),
                ),
            )
        },
    };
    let mut chars: Vec<char> = Vec::new();
    let mut i: usize = 0;
    while i < items.len()
        invariant
            i <= items.len(),
            alphabet_of(root_table@) == item_chars(items@),
            item_chars(items@.subrange(0, i as int)) == Ok::<Seq<char>, ConfigFault>(chars@),
        decreases items.len() - i,
    {
        assert(items@.subrange(0, i + 1).drop_last() =~= items@.subrange(0, i as int));
        match char_from_toml_value(&items[i]) {
            Ok(c) => chars.push(c),
            Err(e) => {
                proof {
                    assert(items@.subrange(0, i + 1).last() == items@[i as int]);
                    lemma_item_chars_prefix(items@, i as int + 1);
                }
                return Err(e);
            },
        }
        i = i + 1;
    }
    assert(items@.subrange(0, i as int) =~= items@);
    Ok(chars)
}

/// The normalisation pairs that `root_table` lists, in order.
pub fn parse_mapping(root_table: &Vec<(String, ConfigValue)>) -> (r: Result<
    Vec<(char, char)>,
    ConfigError,
>)
    ensures
        match (r, mapping_pairs_of(root_table@)) {
            (Ok(v), Ok(ps)) => v@ == ps,
            (Err(e), Err(f)) => e@ == f,
            _ => false,
        },
{
    let entries = match find(root_table, "mapping") {
        None => return Ok(Vec::new()),
        Some(ConfigValue::Table(entries)) => entries,
        Some(v) => {
            return Err(
                ConfigError::SchemaError(
                    String::from_str("Key 'mapping' did not have Table: found ").concat(
                        shape_of(v),
                    ),
                ),
            )
        },
    };
    let mut pairs: Vec<(char, char)> = Vec::new();
    let mut i: usize = 0;
    while i < entries.len()
        invariant
            i <= entries.len(),
            mapping_pairs_of(root_table@) == entry_pairs(entries@),
            entry_pairs(entries@.subrange(0, i as int)) == Ok::<Seq<(char, char)>, ConfigFault>(
                pairs@,
            ),
        decreases entries.len() - i,
    {
        assert(entries@.subrange(0, i + 1).drop_last() =~= entries@.subrange(0, i as int));
        let pre_map = match string_to_char(&entries[i].0) {
            Ok(c) => c,
            Err(e) => {
                proof {
                    assert(entries@.subrange(0, i + 1).last() == entries@[i as int]);
                    lemma_entry_pairs_prefix(entries@, i as int + 1);
                }
                return Err(e);
            },
        };
        let post_map = match char_from_toml_value(&entries[i].1) {
            Ok(c) => c,
            Err(e) => {
                proof {
                    assert(entries@.subrange(0, i + 1).last() == entries@[i as int]);
                    lemma_entry_pairs_prefix(entries@, i as int + 1);
                }
                return Err(e);
            },
        };
        pairs.push((pre_map, post_map));
        i = i + 1;
    }
    assert(entries@.subrange(0, i as int) =~= entries@);
    Ok(pairs)
}

/// The encoding that `root_table` describes: its alphabet inserted in the
/// order of the list, then its normalisation pairs.
pub fn new_from_toml(root_table: Vec<(String, ConfigValue)>) -> (r: Result<Encoding, Error>)
    ensures
        built_from(r, root_table@),
{
    let mut new_encoding = Encoding::new();
    let chars = match parse_alphabet(&root_table) {
        Ok(v) => v,
        Err(e) => return Err(Error::InvalidConfig(e)),
    };
    let mut i: usize = 0;
    while i < chars.len()
        invariant
            i <= chars.len(),
            new_encoding.wf(),
            new_encoding.alphabet() == chars@.subrange(0, i as int),
            new_encoding.mapping() == Map::<char, char>::empty(),
        decreases chars.len() - i,
    {
        new_encoding.insert_char(chars[i]);
        i = i + 1;
        assert(new_encoding.alphabet() =~= chars@.subrange(0, i as int));
    }
    let mapping = match parse_mapping(&root_table) {
        Ok(v) => v,
        Err(e) => return Err(Error::InvalidConfig(e)),
    };
    let mut j: usize = 0;
    while j < mapping.len()
        invariant
            j <= mapping.len(),
            new_encoding.wf(),
            new_encoding.alphabet() == chars@,
            new_encoding.mapping() == table_of(mapping@.subrange(0, j as int)),
        decreases mapping.len() - j,
    {
        let (pre_char, post_char) = mapping[j];
        assert(mapping@.subrange(0, j + 1).drop_last() =~= mapping@.subrange(0, j as int));
        new_encoding.insert_map(pre_char, post_char);
        j = j + 1;
    }
    assert(chars@.subrange(0, i as int) =~= chars@);
    assert(mapping@.subrange(0, j as int) =~= mapping@);
    Ok(new_encoding)
}

/// The top-level entries of the TOML document `toml`.
pub fn read_toml_string(toml: &str) -> (r: Result<Vec<(String, ConfigValue)>, Error>)
    ensures
        match toml_document(toml@) {
            None => r == Err::<Vec<(String, ConfigValue)>, Error>(
                Error::InvalidConfig(ConfigError::InvalidToml),
            ),
            Some(d) => r == Ok::<Vec<(String, ConfigValue)>, Error>(d),
        },
{
    match parse_toml(toml) {
        Some(d) => Ok(d),
        None => Err(Error::from(ConfigError::InvalidToml)),
    }
}

impl Encoding {
    /// The encoding that the TOML document `toml` describes.
    pub fn parse(toml: &str) -> (r: Result<Encoding, Error>)
        ensures
            match toml_document(toml@) {
                None => r == Err::<Encoding, Error>(Error::InvalidConfig(ConfigError::InvalidToml)),
                Some(d) => built_from(r, d@),
            },
    {
        let root_table = match read_toml_string(toml) {
            Ok(t) => t,
            Err(e) => return Err(e),
        };
        new_from_toml(root_table)
    }
}

/// A document whose alphabet is an empty list, and whose table is absent or
/// lists nothing, builds an encoding with an empty alphabet.
pub proof fn lemma_empty_alphabet_document(r: Result<Encoding, Error>, doc: Seq<(String, ConfigValue)>)
    requires
        lookup(doc, "alphabet"@) matches Some(ConfigValue::List(items)) && items@.len() == 0,
        lookup(doc, "mapping"@) is None,
        built_from(r, doc),
    ensures
        r matches Ok(e) && e.alphabet().len() == 0 && e.mapping() == Map::<char, char>::empty(),
{
}

/// Where a prefix of `items` fails, all of `items` fails the same way.
proof fn lemma_item_chars_prefix(items: Seq<ConfigItem>, n: int)
    requires
        0 <= n <= items.len(),
        item_chars(items.subrange(0, n)) is Err,
    ensures
        item_chars(items) == item_chars(items.subrange(0, n)),
    decreases items.len() - n,
{
    if n < items.len() {
        assert(items.subrange(0, n + 1).drop_last() =~= items.subrange(0, n));
        lemma_item_chars_prefix(items, n + 1);
    } else {
        assert(items.subrange(0, n) =~= items);
    }
}

/// Where a prefix of `entries` fails, all of `entries` fails the same way.
proof fn lemma_entry_pairs_prefix(entries: Seq<(String, ConfigItem)>, n: int)
    requires
        0 <= n <= entries.len(),
        entry_pairs(entries.subrange(0, n)) is Err,
    ensures
        entry_pairs(entries) == entry_pairs(entries.subrange(0, n)),
    decreases entries.len() - n,
{
    if n < entries.len() {
        assert(entries.subrange(0, n + 1).drop_last() =~= entries.subrange(0, n));
        lemma_entry_pairs_prefix(entries, n + 1);
    } else {
        assert(entries.subrange(0, n) =~= entries);
    }
}

/// Where `doc[..n]` has an entry under `key`, the first one in `doc` is in
/// `doc[..n]`.
proof fn lemma_lookup_prefix(doc: Seq<(String, ConfigValue)>, key: Seq<char>, n: int)
    requires
        0 <= n <= doc.len(),
        lookup(doc.subrange(0, n), key) is Some,
    ensures
        lookup(doc, key) == lookup(doc.subrange(0, n), key),
    decreases doc.len() - n,
{
    if n < doc.len() {
        assert(doc.subrange(0, n + 1).drop_last() =~= doc.subrange(0, n));
        lemma_lookup_prefix(doc, key, n + 1);
    } else {
        assert(doc.subrange(0, n) =~= doc);
    }
}

} // verus!
