//! The metadata that a model carries for its front-end and its decoder.
use ort::session::{ModelMetadata, Session};
use vstd::prelude::*;

use crate::order;
use crate::text;

verus! {

/// An ONNX Runtime session, opaque here.
#[verifier::external_type_specification]
#[verifier::external_body]
pub struct ExSession(Session);

/// The metadata of a loaded model, opaque here but for the entries that it holds.
#[verifier::external_type_specification]
#[verifier::external_body]
pub struct ExModelMetadata<'s>(ModelMetadata<'s>);

/// An error of ONNX Runtime, opaque here.
#[verifier::external_type_specification]
#[verifier::external_body]
#[verifier::reject_recursive_types(R)]
pub struct ExOrtError<R>(ort::Error<R>);

/// The custom entries that metadata answers for: each key for which [`ModelMetadata::custom`]
/// returns a value, with that value. Whether a key that the model does not carry is answered
/// with no value or with an empty one is up to the runtime, and left open.
pub uninterp spec fn metadata_entries(metadata: ModelMetadata<'_>) -> Map<Seq<char>, Seq<char>>;

/// The custom entries of the metadata of the model that a session has loaded.
pub uninterp spec fn session_entries(session: Session) -> Map<Seq<char>, Seq<char>>;

/// `ModelMetadata::custom` looks a key up among the custom entries: it returns the value of a
/// key that is answered for, and `None` for every other key, one with a NUL in it included.
#[verifier::external_body]
fn metadata_custom(metadata: &ModelMetadata<'_>, key: &str) -> (value: Option<String>)
    ensures
        match value {
            Some(v) => {
                &&& metadata_entries(*metadata).contains_key(key@)
                &&& metadata_entries(*metadata)[key@] == v@
            },
            None => !metadata_entries(*metadata).contains_key(key@),
        },
{
    metadata.custom(key)
}

/// `Session::metadata` returns the metadata of the model that the session has loaded, or the
/// error of the runtime. When the runtime fails is left open.
#[verifier::external_body]
pub(crate) fn session_metadata(session: &Session) -> (metadata: Result<ModelMetadata<'_>, ort::Error>)
    ensures
        match metadata {
            Ok(m) => metadata_entries(m) == session_entries(*session),
            Err(_) => true,
        },
{
    session.metadata()
}

/// Where metadata is read from.
pub enum Entries<'a> {
    /// The metadata of a loaded model.
    Model(&'a ModelMetadata<'a>),
    /// Keys with their values; of a key listed twice, the first counts.
    Listed(&'a Vec<(String, String)>),
}

/// The entries of a list of keys with their values.
pub open spec fn listed(pairs: Seq<(String, String)>) -> Map<Seq<char>, Seq<char>>
    decreases pairs.len(),
{
    if pairs.len() == 0 {
        Map::empty()
    } else {
        let rest = listed(pairs.drop_last());
        if rest.contains_key(pairs.last().0@) {
            rest
        } else {
            rest.insert(pairs.last().0@, pairs.last().1@)
        }
    }
}

impl<'a> Entries<'a> {
    /// The entries that are read from here.
    pub open spec fn all(&self) -> Map<Seq<char>, Seq<char>> {
        match *self {
            Entries::Model(metadata) => metadata_entries(*metadata),
            Entries::Listed(pairs) => listed(pairs@),
        }
    }

    /// The value of a key.
    pub fn get(&self, key: &str) -> (value: Option<String>)
        ensures
            match value {
                Some(v) => self.all().contains_key(key@) && self.all()[key@] == v@,
                None => !self.all().contains_key(key@),
            },
    {
        match self {
            Entries::Model(metadata) => metadata_custom(metadata, key),
            Entries::Listed(pairs) => {
                let wanted = key.to_owned();
                let mut i: usize = 0;
                assert(pairs@.take(0) == Seq::<(String, String)>::empty());
                while i < pairs.len()
                    invariant
                        i <= pairs@.len(),
                        wanted@ == key@,
                        self.all() == listed(pairs@),
                        !listed(pairs@.take(i as int)).contains_key(key@),
                    decreases pairs@.len() - i,
                {
                    assert(pairs@.take(i + 1).drop_last() == pairs@.take(i as int));
                    if pairs[i].0 == wanted {
                        proof {
                            let first = pairs@.take(i + 1);
                            assert(first.last() == pairs@[i as int]);
                            assert(listed(first)[key@] == pairs@[i as int].1@);
                            listed_keeps_the_first(pairs@, i + 1, key@);
                        }
                        return Some(pairs[i].1.clone());
                    }
                    i = i + 1;
                }
                assert(pairs@.take(i as int) == pairs@);
                None
            },
        }
    }
}

/// A key keeps the value that it has among the first pairs.
proof fn listed_keeps_the_first(pairs: Seq<(String, String)>, k: int, key: Seq<char>)
    requires
        0 <= k <= pairs.len(),
        listed(pairs.take(k)).contains_key(key),
    ensures
        listed(pairs).contains_key(key),
        listed(pairs)[key] == listed(pairs.take(k))[key],
    decreases pairs.len(),
{
    if k == pairs.len() {
        assert(pairs.take(k) == pairs);
    } else {
        assert(pairs.drop_last().take(k) == pairs.take(k));
        listed_keeps_the_first(pairs.drop_last(), k, key);
    }
}

/// The bits of 32768, which brings samples in `[-1, 1]` to the range of 16-bit integers.
pub const INT16_SCALE: u32 = 0x4700_0000;

/// What the front-end and the decoder need of a model's metadata.
pub struct Meta<T> {
    /// Frames joined to one stacked frame.
    pub lfr_m: usize,
    /// Frames from one stacked frame to the next.
    pub lfr_n: usize,
    /// The bits of what samples in `[-1, 1]` are multiplied by: 1 or 32768.
    pub sample_scale: u32,
    /// The negated mean of every dimension of a stacked frame.
    pub neg_mean: Vec<T>,
    /// The inverse standard deviation of every dimension of a stacked frame.
    pub inv_stddev: Vec<T>,
    /// The token that stands for no output.
    pub blank_id: usize,
    /// The id that asks for inverse text normalisation.
    pub with_itn: i32,
    /// The id that asks for none.
    pub without_itn: i32,
    /// The languages that the model knows, with their ids.
    pub lang_ids: Vec<(String, i32)>,
}

/// Why metadata cannot be used.
#[derive(Debug)]
pub enum MetaError<E> {
    /// The runtime did not give the metadata.
    Unreadable(ort::Error),
    /// A key has no value.
    Missing(String),
    /// The value of a key, without the white space around it, is no integer.
    BadInt { key: String, value: String },
    /// One of the numbers of a key cannot be read.
    BadReal {
        key: String,
        token: String,
        cause: E,
    },
    /// No language has an id.
    NoLanguages,
}

/// The keys that must be readable, in the order in which they are read.
pub open spec fn required_key(i: int) -> Seq<char> {
    if i == 0 {
        "lfr_window_size"@
    } else if i == 1 {
        "lfr_window_shift"@
    } else if i == 2 {
        "neg_mean"@
    } else if i == 3 {
        "inv_stddev"@
    } else if i == 4 {
        "with_itn"@
    } else {
        "without_itn"@
    }
}

/// Whether required key `i` holds a list of numbers rather than an integer.
pub open spec fn holds_reals(i: int) -> bool {
    i == 2 || i == 3
}

/// The integer that a key holds, white space around it aside.
pub open spec fn int_at(entries: Map<Seq<char>, Seq<char>>, key: Seq<char>) -> Option<int> {
    if entries.contains_key(key) {
        match text::number(text::trim(entries[key])) {
            Some(v) => if i32::MIN <= v <= i32::MAX {
                Some(v)
            } else {
                None
            },
            None => None,
        }
    } else {
        None
    }
}

/// The natural number that a key holds, white space around it aside.
pub open spec fn natural_at(entries: Map<Seq<char>, Seq<char>>, key: Seq<char>) -> Option<nat> {
    if entries.contains_key(key) {
        match text::natural(text::trim(entries[key])) {
            Some(v) => if v <= usize::MAX {
                Some(v)
            } else {
                None
            },
            None => None,
        }
    } else {
        None
    }
}

/// What stands between the numbers of a list.
pub open spec fn separators() -> Seq<char> {
    seq![',', ' ', '\t', '\n', '\r', '[', ']']
}

/// The pieces that are not empty.
pub open spec fn filled(pieces: Seq<Seq<char>>) -> Seq<Seq<char>>
    decreases pieces.len(),
{
    if pieces.len() == 0 {
        Seq::empty()
    } else {
        let rest = filled(pieces.drop_last());
        if pieces.last().len() == 0 {
            rest
        } else {
            rest.push(pieces.last())
        }
    }
}

/// The numbers of a list, as they are written.
pub open spec fn fields(raw: Seq<char>) -> Seq<Seq<char>> {
    filled(text::split(raw, separators()))
}

/// Whether `parse`, called on the text `s`, may return `r`.
pub open spec fn parses<T, E, P: Fn(&str) -> Result<T, E>>(
    parse: P,
    s: Seq<char>,
    r: Result<T, E>,
) -> bool {
    exists|a: &str| a@ == s && #[trigger] call_ensures(parse, (a,), r)
}

/// Whether `values` are what `parse` returned for the first fields.
pub open spec fn are_reals<T, E, P: Fn(&str) -> Result<T, E>>(
    parse: P,
    fields: Seq<Seq<char>>,
    values: Seq<T>,
) -> bool {
    &&& values.len() <= fields.len()
    &&& forall|i: int|
        0 <= i < values.len() ==> parses(parse, fields[i], Ok::<T, E>(#[trigger] values[i]))
}

/// Whether `values` are the numbers of a list, each as `parse` returned it.
pub open spec fn reals_at<T, E, P: Fn(&str) -> Result<T, E>>(
    entries: Map<Seq<char>, Seq<char>>,
    parse: P,
    key: Seq<char>,
    values: Seq<T>,
) -> bool {
    &&& entries.contains_key(key)
    &&& values.len() == fields(entries[key]).len()
    &&& are_reals(parse, fields(entries[key]), values)
}

/// Whether required key `i` can be read.
pub open spec fn readable<T, E, P: Fn(&str) -> Result<T, E>>(
    entries: Map<Seq<char>, Seq<char>>,
    parse: P,
    i: int,
) -> bool {
    if holds_reals(i) {
        exists|values: Seq<T>| #[trigger] reals_at(entries, parse, required_key(i), values)
    } else {
        int_at(entries, required_key(i)) is Some
    }
}

/// Whether all required keys before key `k` can be read.
pub open spec fn readable_before<T, E, P: Fn(&str) -> Result<T, E>>(
    entries: Map<Seq<char>, Seq<char>>,
    parse: P,
    k: int,
) -> bool {
    forall|i: int| 0 <= i < k ==> #[trigger] readable(entries, parse, i)
}

/// The number of languages that are asked for.
pub const LANGUAGES: usize = 6;

/// The name of language `i`.
pub open spec fn language(i: int) -> Seq<char> {
    if i == 0 {
        "auto"@
    } else if i == 1 {
        "zh"@
    } else if i == 2 {
        "en"@
    } else if i == 3 {
        "ja"@
    } else if i == 4 {
        "ko"@
    } else {
        "yue"@
    }
}

/// The id of language `i`, where the model has one.
pub open spec fn language_at(entries: Map<Seq<char>, Seq<char>>, i: int) -> Option<int> {
    int_at(entries, "lang_"@ + language(i))
}

/// The first `k` languages that have an id, with their ids.
pub open spec fn languages_up_to(entries: Map<Seq<char>, Seq<char>>, k: nat) -> Seq<
    (Seq<char>, int),
>
    decreases k,
{
    if k == 0 {
        Seq::empty()
    } else {
        let rest = languages_up_to(entries, (k - 1) as nat);
        match language_at(entries, k - 1) {
            Some(id) => rest.push((language(k - 1), id)),
            None => rest,
        }
    }
}

/// The contents of a list of languages.
pub open spec fn language_views(v: Seq<(String, i32)>) -> Seq<(Seq<char>, int)> {
    Seq::new(v.len(), |i: int| (v[i].0@, v[i].1 as int))
}

/// Whether `meta` is what the entries say.
pub open spec fn is_meta<T, E, P: Fn(&str) -> Result<T, E>>(
    entries: Map<Seq<char>, Seq<char>>,
    parse: P,
    meta: Meta<T>,
) -> bool {
    &&& int_at(entries, "lfr_window_size"@) matches Some(m) && meta.lfr_m == m as usize
    &&& int_at(entries, "lfr_window_shift"@) matches Some(n) && meta.lfr_n == n as usize
    &&& meta.sample_scale == (match int_at(entries, "normalize_samples"@) {
        Some(v) => if v != 0 {
            order::ONE
        } else {
            INT16_SCALE
        },
        None => INT16_SCALE,
    })
    &&& meta.blank_id == (match natural_at(entries, "blank_id"@) {
        Some(v) => v,
        None => 0nat,
    })
    &&& reals_at(entries, parse, "neg_mean"@, meta.neg_mean@)
    &&& reals_at(entries, parse, "inv_stddev"@, meta.inv_stddev@)
    &&& int_at(entries, "with_itn"@) == Some(meta.with_itn as int)
    &&& int_at(entries, "without_itn"@) == Some(meta.without_itn as int)
    &&& language_views(meta.lang_ids@) == languages_up_to(entries, LANGUAGES as nat)
    &&& meta.lang_ids@.len() > 0
}

/// Whether `error` is why the entries cannot be used: it is about the first required key that
/// cannot be read, or about the languages where all can.
pub open spec fn is_meta_error<T, E, P: Fn(&str) -> Result<T, E>>(
    entries: Map<Seq<char>, Seq<char>>,
    parse: P,
    error: MetaError<E>,
) -> bool {
    match error {
        MetaError::Unreadable(_) => false,
        MetaError::Missing(key) => exists|i: int|
            0 <= i < 6 && key@ == #[trigger] required_key(i) && !entries.contains_key(key@)
                && readable_before(entries, parse, i),
        MetaError::BadInt { key, value } => exists|i: int|
            0 <= i < 6 && !holds_reals(i) && key@ == #[trigger] required_key(i)
                && entries.contains_key(key@) && int_at(entries, key@) is None && value@
                == text::trim(entries[key@]) && readable_before(
                entries,
                parse,
                i,
            ),
        MetaError::BadReal { key, token, cause } => exists|i: int, before: Seq<T>|
            0 <= i < 6 && holds_reals(i) && key@ == required_key(i) && entries.contains_key(key@)
                && before.len() < fields(entries[key@]).len() && token@
                == fields(entries[key@])[before.len() as int] && #[trigger] are_reals(
                parse,
                fields(entries[required_key(i)]),
                before,
            ) && parses(parse, token@, Err::<T, E>(cause)) && readable_before(entries, parse, i),
        MetaError::NoLanguages => {
            &&& readable_before(entries, parse, 6)
            &&& languages_up_to(entries, LANGUAGES as nat).len() == 0
        },
    }
}

/// Reads an integer.
fn read_int(entries: &Entries<'_>, key: &str) -> (r: Option<i32>)
    ensures
        match r {
            Some(v) => int_at(entries.all(), key@) == Some(v as int),
            None => int_at(entries.all(), key@) is None,
        },
{
    match entries.get(key) {
        Some(raw) => text::parse_i32(text::trimmed(raw.as_str()).as_str()),
        None => None,
    }
}

/// Reads an integer that must be there.
fn require_int<E>(entries: &Entries<'_>, key: &str) -> (r: Result<i32, MetaError<E>>)
    ensures
        match r {
            Ok(v) => int_at(entries.all(), key@) == Some(v as int),
            Err(MetaError::Missing(k)) => k@ == key@ && !entries.all().contains_key(key@),
            Err(MetaError::BadInt { key: k, value }) => {
                &&& k@ == key@
                &&& value@ == text::trim(entries.all()[key@])
                &&& entries.all().contains_key(key@)
                &&& int_at(entries.all(), key@) is None
            },
            Err(_) => false,
        },
{
    match entries.get(key) {
        None => Err(MetaError::Missing(key.to_owned())),
        Some(raw) => {
            let value = text::trimmed(raw.as_str());
            match text::parse_i32(value.as_str()) {
                Some(v) => Ok(v),
                None => Err(MetaError::BadInt { key: key.to_owned(), value }),
            }
        },
    }
}

/// The numbers of a list, as they are written.
fn split_fields(raw: &str) -> (r: Vec<String>)
    ensures
        text::views(r@) == fields(raw@),
{
    let marks: [char; 7] = [',', ' ', '\t', '\n', '\r', '[', ']'];
    assert(marks@ == separators());
    let pieces = text::split_at_any(raw, marks.as_slice());
    let ghost all = text::views(pieces@);
    let mut r: Vec<String> = Vec::new();
    let mut i: usize = 0;
    assert(all.take(0) == Seq::<Seq<char>>::empty());
    assert(text::views(r@) == filled(all.take(0)));
    while i < pieces.len()
        invariant
            i <= pieces@.len(),
            all == text::views(pieces@),
            text::views(r@) == filled(all.take(i as int)),
        decreases pieces@.len() - i,
    {
        assert(all.take(i + 1).drop_last() == all.take(i as int));
        if !pieces[i].as_str().is_empty() {
            let ghost before = text::views(r@);
            r.push(pieces[i].clone());
            assert(text::views(r@) == before.push(all[i as int]));
        }
        i = i + 1;
    }
    assert(all.take(i as int) == all);
    r
}

/// Reads a list of numbers that must be there.
fn require_reals<T, E, P: Fn(&str) -> Result<T, E>>(
    entries: &Entries<'_>,
    key: &str,
    parse: &P,
) -> (r: Result<Vec<T>, MetaError<E>>)
    requires
        forall|s: &str| #[trigger] call_requires(*parse, (s,)),
    ensures
        match r {
            Ok(values) => reals_at(entries.all(), *parse, key@, values@),
            Err(MetaError::Missing(k)) => k@ == key@ && !entries.all().contains_key(key@),
            Err(MetaError::BadReal { key: k, token, cause }) => {
                &&& k@ == key@
                &&& entries.all().contains_key(key@)
                &&& exists|before: Seq<T>|
                    before.len() < fields(entries.all()[key@]).len() && token@ == fields(
                        entries.all()[key@],
                    )[before.len() as int] && #[trigger] are_reals(
                        *parse,
                        fields(entries.all()[key@]),
                        before,
                    ) && parses(*parse, token@, Err::<T, E>(cause))
            },
            Err(_) => false,
        },
{
    let raw = match entries.get(key) {
        None => {
            return Err(MetaError::Missing(key.to_owned()));
        },
        Some(raw) => raw,
    };
    let tokens = split_fields(raw.as_str());
    let ghost wanted = fields(raw@);
    let mut values: Vec<T> = Vec::new();
    let mut i: usize = 0;
    while i < tokens.len()
        invariant
            i <= tokens@.len(),
            i == values@.len(),
            text::views(tokens@) == wanted,
            wanted == fields(raw@),
            entries.all().contains_key(key@),
            entries.all()[key@] == raw@,
            forall|s: &str| #[trigger] call_requires(*parse, (s,)),
            are_reals(*parse, wanted, values@),
        decreases tokens@.len() - i,
    {
        let token = tokens[i].as_str();
        assert(wanted[i as int] == token@);
        match parse(token) {
            Ok(v) => {
                assert(parses(*parse, wanted[i as int], Ok::<T, E>(v)));
                values.push(v);
            },
            Err(cause) => {
                assert(parses(*parse, token@, Err::<T, E>(cause)));
                assert(are_reals(*parse, wanted, values@));
                return Err(MetaError::BadReal { key: key.to_owned(), token: token.to_owned(), cause });
            },
        }
        i = i + 1;
    }
    assert(values@.len() == text::views(tokens@).len());
    Ok(values)
}

/// The name of a language.
fn language_name(i: usize) -> (name: &'static str)
    requires
        i < LANGUAGES,
    ensures
        name@ == language(i as int),
{
    match i {
        0 => "auto",
        1 => "zh",
        2 => "en",
        3 => "ja",
        4 => "ko",
        _ => "yue",
    }
}

/// Reads the languages that the model knows.
fn read_languages(entries: &Entries<'_>) -> (ids: Vec<(String, i32)>)
    ensures
        language_views(ids@) == languages_up_to(entries.all(), LANGUAGES as nat),
{
    let mut ids: Vec<(String, i32)> = Vec::new();
    let mut i: usize = 0;
    assert(language_views(ids@) == languages_up_to(entries.all(), 0));
    while i < LANGUAGES
        invariant
            i <= LANGUAGES,
            language_views(ids@) == languages_up_to(entries.all(), i as nat),
        decreases LANGUAGES - i,
    {
        let name = language_name(i);
        let mut key: String = "lang_".to_owned();
        key.append(name);
        match read_int(entries, key.as_str()) {
            Some(id) => {
                let ghost before = language_views(ids@);
                ids.push((name.to_owned(), id));
                assert(language_views(ids@) == before.push((language(i as int), id as int)));
            },
            None => {},
        }
        i = i + 1;
    }
    ids
}

/// Reads what the front-end and the decoder need. `parse` reads one number.
pub fn interpret<T, E, P: Fn(&str) -> Result<T, E>>(entries: &Entries<'_>, parse: &P) -> (r: Result<
    Meta<T>,
    MetaError<E>,
>)
    requires
        forall|s: &str| #[trigger] call_requires(*parse, (s,)),
    ensures
        match r {
            Ok(meta) => is_meta(entries.all(), *parse, meta),
            Err(error) => is_meta_error::<T, E, P>(entries.all(), *parse, error),
        },
{
    let ghost all = entries.all();
    assert(required_key(0) == "lfr_window_size"@);
    let lfr_m: i32 = match require_int::<E>(entries, "lfr_window_size") {
        Ok(v) => v,
        Err(e) => {
            return Err(e);
        },
    };
    assert(readable(all, *parse, 0));
    assert(required_key(1) == "lfr_window_shift"@);
    let lfr_n: i32 = match require_int::<E>(entries, "lfr_window_shift") {
        Ok(v) => v,
        Err(e) => {
            return Err(e);
        },
    };
    assert(readable(all, *parse, 1));
    let normalize: i32 = match read_int(entries, "normalize_samples") {
        Some(v) => v,
        None => 0,
    };
    let sample_scale: u32 = if normalize != 0 {
        order::ONE
    } else {
        INT16_SCALE
    };
    let blank_id: usize = match entries.get("blank_id") {
        Some(raw) => match text::parse_usize(text::trimmed(raw.as_str()).as_str()) {
            Some(v) => v,
            None => 0,
        },
        None => 0,
    };
    assert(required_key(2) == "neg_mean"@);
    let neg_mean = match require_reals(entries, "neg_mean", parse) {
        Ok(v) => v,
        Err(e) => {
            return Err(e);
        },
    };
    assert(reals_at(all, *parse, required_key(2), neg_mean@));
    assert(readable(all, *parse, 2));
    assert(required_key(3) == "inv_stddev"@);
    let inv_stddev = match require_reals(entries, "inv_stddev", parse) {
        Ok(v) => v,
        Err(e) => {
            return Err(e);
        },
    };
    assert(reals_at(all, *parse, required_key(3), inv_stddev@));
    assert(readable(all, *parse, 3));
    assert(required_key(4) == "with_itn"@);
    let with_itn: i32 = match require_int::<E>(entries, "with_itn") {
        Ok(v) => v,
        Err(e) => {
            return Err(e);
        },
    };
    assert(readable(all, *parse, 4));
    assert(required_key(5) == "without_itn"@);
    let without_itn: i32 = match require_int::<E>(entries, "without_itn") {
        Ok(v) => v,
        Err(e) => {
            return Err(e);
        },
    };
    assert(readable(all, *parse, 5));
    let lang_ids = read_languages(entries);
    assert(language_views(lang_ids@).len() == lang_ids@.len());
    if lang_ids.len() == 0 {
        return Err(MetaError::NoLanguages);
    }
    Ok(
        Meta {
            lfr_m: #[verifier::truncate] (lfr_m as usize),
            lfr_n: #[verifier::truncate] (lfr_n as usize),
            sample_scale,
            neg_mean,
            inv_stddev,
            blank_id,
            with_itn,
            without_itn,
            lang_ids,
        },
    )
}

/// Reads what the front-end and the decoder need from the model that a session has loaded.
pub fn parse_meta<T, E, P: Fn(&str) -> Result<T, E>>(session: &Session, parse: &P) -> (r: Result<
    Meta<T>,
    MetaError<E>,
>)
    requires
        forall|s: &str| #[trigger] call_requires(*parse, (s,)),
    ensures
        match r {
            Ok(meta) => is_meta(session_entries(*session), *parse, meta),
            Err(MetaError::Unreadable(_)) => true,
            Err(error) => is_meta_error::<T, E, P>(session_entries(*session), *parse, error),
        },
{
    match session_metadata(session) {
        Err(e) => Err(MetaError::Unreadable(e)),
        Ok(metadata) => interpret(&Entries::Model(&metadata), parse),
    }
}

/// A key holds an integer where it has a value that denotes, white space at its ends aside, one
/// of 32 bits.
pub proof fn an_integer_is_what_its_key_holds(
    entries: Map<Seq<char>, Seq<char>>,
    key: Seq<char>,
    v: int,
)
    ensures
        int_at(entries, key) == Some(v) <==> entries.contains_key(key) && text::number(
            text::trim(entries[key]),
        ) == Some(v) && -0x8000_0000 <= v <= 0x7FFF_FFFF,
{
}

/// Every number of the metadata is read under its own key.
pub proof fn metadata_is_read_under_its_keys<T, E, P: Fn(&str) -> Result<T, E>>(
    entries: Map<Seq<char>, Seq<char>>,
    parse: P,
    meta: Meta<T>,
)
    requires
        is_meta(entries, parse, meta),
    ensures
        entries.contains_key("lfr_window_size"@),
        entries.contains_key("lfr_window_shift"@),
        entries.contains_key("with_itn"@),
        entries.contains_key("without_itn"@),
        ({
            let m = text::number(text::trim(entries["lfr_window_size"@]));
            &&& m is Some && -0x8000_0000 <= m->0 <= 0x7FFF_FFFF
            &&& meta.lfr_m == m->0 as usize
            &&& m->0 >= 0 ==> meta.lfr_m == m->0
        }),
        ({
            let n = text::number(text::trim(entries["lfr_window_shift"@]));
            &&& n is Some && -0x8000_0000 <= n->0 <= 0x7FFF_FFFF
            &&& meta.lfr_n == n->0 as usize
            &&& n->0 >= 0 ==> meta.lfr_n == n->0
        }),
        text::number(text::trim(entries["with_itn"@])) == Some(meta.with_itn as int),
        text::number(text::trim(entries["without_itn"@])) == Some(meta.without_itn as int),
{
}

/// Samples are left as they are where the metadata says, by an integer that is not zero, that
/// they are to be normalised; else they are multiplied by 32768.
pub proof fn samples_are_scaled_unless_normalised<T, E, P: Fn(&str) -> Result<T, E>>(
    entries: Map<Seq<char>, Seq<char>>,
    parse: P,
    meta: Meta<T>,
)
    requires
        is_meta(entries, parse, meta),
    ensures
        ({
            let key = "normalize_samples"@;
            let v = text::number(text::trim(entries[key]));
            if entries.contains_key(key) && v is Some && -0x8000_0000 <= v->0 <= 0x7FFF_FFFF && v->0
                != 0 {
                meta.sample_scale == 0x3F80_0000
            } else {
                meta.sample_scale == 0x4700_0000
            }
        }),
{
}

/// The blank token is the one that the metadata names, and token 0 where it names none.
pub proof fn the_blank_is_named_or_0<T, E, P: Fn(&str) -> Result<T, E>>(
    entries: Map<Seq<char>, Seq<char>>,
    parse: P,
    meta: Meta<T>,
)
    requires
        is_meta(entries, parse, meta),
    ensures
        ({
            let v = text::natural(text::trim(entries["blank_id"@]));
            if entries.contains_key("blank_id"@) && v is Some && v->0 <= usize::MAX {
                meta.blank_id == v->0
            } else {
                meta.blank_id == 0
            }
        }),
{
}

/// The statistics are the numbers listed under their keys, one for each, in order.
pub proof fn statistics_are_the_numbers_listed<T, E, P: Fn(&str) -> Result<T, E>>(
    entries: Map<Seq<char>, Seq<char>>,
    parse: P,
    meta: Meta<T>,
    i: int,
)
    requires
        is_meta(entries, parse, meta),
        0 <= i,
    ensures
        entries.contains_key("neg_mean"@),
        entries.contains_key("inv_stddev"@),
        meta.neg_mean@.len() == fields(entries["neg_mean"@]).len(),
        meta.inv_stddev@.len() == fields(entries["inv_stddev"@]).len(),
        i < meta.neg_mean@.len() ==> exists|a: &str|
            a@ == fields(entries["neg_mean"@])[i] && #[trigger] call_ensures(
                parse,
                (a,),
                Ok::<T, E>(meta.neg_mean@[i]),
            ),
        i < meta.inv_stddev@.len() ==> exists|a: &str|
            a@ == fields(entries["inv_stddev"@])[i] && #[trigger] call_ensures(
                parse,
                (a,),
                Ok::<T, E>(meta.inv_stddev@[i]),
            ),
{
    if i < meta.neg_mean@.len() {
        assert(parses(parse, fields(entries["neg_mean"@])[i], Ok::<T, E>(meta.neg_mean@[i])));
    }
    if i < meta.inv_stddev@.len() {
        assert(parses(parse, fields(entries["inv_stddev"@])[i], Ok::<T, E>(meta.inv_stddev@[i])));
    }
}

/// Whether a character stands between the numbers of a list.
spec fn parts_numbers(c: char) -> bool {
    c == ',' || c == ' ' || c == '\t' || c == '\n' || c == '\r' || c == '[' || c == ']'
}

proof fn separators_part_numbers(c: char)
    ensures
        separators().contains(c) <==> parts_numbers(c),
{
    let all = separators();
    assert(all[0] == ',' && all[1] == ' ' && all[2] == '\t' && all[3] == '\n' && all[4] == '\r'
        && all[5] == '[' && all[6] == ']');
    if parts_numbers(c) {
        if c == ',' {
            assert(all.contains(all[0]));
        } else if c == ' ' {
            assert(all.contains(all[1]));
        } else if c == '\t' {
            assert(all.contains(all[2]));
        } else if c == '\n' {
            assert(all.contains(all[3]));
        } else if c == '\r' {
            assert(all.contains(all[4]));
        } else if c == '[' {
            assert(all.contains(all[5]));
        } else {
            assert(all.contains(all[6]));
        }
    }
}

proof fn filled_of_both(a: Seq<Seq<char>>, b: Seq<Seq<char>>)
    ensures
        filled(a + b) == filled(a) + filled(b),
    decreases b.len(),
{
    if b.len() == 0 {
        assert(a + b == a);
        assert(filled(a) + filled(b) == filled(a));
    } else {
        filled_of_both(a, b.drop_last());
        assert((a + b).drop_last() == a + b.drop_last());
        assert(filled(a + b) == filled(a) + filled(b));
    }
}

/// Commas, brackets and white space between numbers part them: the numbers of a list are those
/// before such a character and then those behind it.
pub proof fn numbers_are_parted(a: Seq<char>, c: char, b: Seq<char>)
    requires
        c == ',' || c == ' ' || c == '\t' || c == '\n' || c == '\r' || c == '[' || c == ']',
    ensures
        fields(a + seq![c] + b) == fields(a) + fields(b),
{
    separators_part_numbers(c);
    text::a_separator_splits(a, c, b, separators());
    filled_of_both(text::split(a, separators()), text::split(b, separators()));
}

/// What holds no such character is one number, or none where it is empty.
pub proof fn what_is_not_parted_is_one_number(s: Seq<char>)
    requires
        forall|i: int|
            0 <= i < s.len() ==> #[trigger] s[i] != ',' && s[i] != ' ' && s[i] != '\t' && s[i]
                != '\n' && s[i] != '\r' && s[i] != '[' && s[i] != ']',
    ensures
        s.len() == 0 ==> fields(s) == Seq::<Seq<char>>::empty(),
        s.len() > 0 ==> fields(s) == seq![s],
{
    assert forall|i: int| 0 <= i < s.len() implies !separators().contains(#[trigger] s[i]) by {
        separators_part_numbers(s[i]);
    }
    text::text_without_separators_is_one_piece(s, separators());
    let pieces = seq![s];
    assert(pieces.drop_last() == Seq::<Seq<char>>::empty());
    assert(filled(pieces.drop_last()) == Seq::<Seq<char>>::empty());
    if s.len() > 0 {
        assert(filled(pieces) == seq![s]);
    }
}

/// Of a key that is listed, the first value counts; a key that is not listed has none.
pub proof fn the_first_of_equal_keys_counts(pairs: Seq<(String, String)>, key: Seq<char>, k: int)
    requires
        0 <= k <= pairs.len(),
        forall|i: int| 0 <= i < k ==> (#[trigger] pairs[i]).0@ != key,
        k < pairs.len() ==> pairs[k].0@ == key,
    ensures
        listed(pairs).contains_key(key) <==> k < pairs.len(),
        k < pairs.len() ==> listed(pairs)[key] == pairs[k].1@,
    decreases pairs.len(),
{
    if pairs.len() > 0 {
        let rest = pairs.drop_last();
        let last = pairs.len() - 1;
        assert forall|i: int| 0 <= i < rest.len() && i < k implies (#[trigger] rest[i]).0@ != key by {
            assert(rest[i] == pairs[i]);
        }
        if k < last {
            assert(rest[k] == pairs[k]);
            the_first_of_equal_keys_counts(rest, key, k);
        } else {
            the_first_of_equal_keys_counts(rest, key, last);
            assert(k == pairs.len() ==> pairs[last].0@ != key);
        }
    }
}

/// The six keys that must be readable are told apart by their names.
proof fn required_keys_differ(i: int, j: int)
    requires
        0 <= i < 6,
        0 <= j < 6,
        required_key(i) == required_key(j),
    ensures
        i == j,
{
    reveal_strlit("lfr_window_size");
    reveal_strlit("lfr_window_shift");
    reveal_strlit("neg_mean");
    reveal_strlit("inv_stddev");
    reveal_strlit("with_itn");
    reveal_strlit("without_itn");
    assert("lfr_window_size"@.len() == 15);
    assert("lfr_window_shift"@.len() == 16);
    assert("neg_mean"@.len() == 8);
    assert("inv_stddev"@.len() == 10);
    assert("with_itn"@.len() == 8);
    assert("without_itn"@.len() == 11);
    assert("neg_mean"@[0] == 'n');
    assert("with_itn"@[0] == 'w');
    assert(required_key(i)[0] == required_key(j)[0]);
    assert(required_key(i).len() == required_key(j).len());
}

/// Keys are read in this order: window size, window shift, means, deviations, and the ids for
/// text with and without normalisation. What is reported is a fault of the first key that has
/// one: all keys before it can be read.
pub proof fn the_first_unreadable_key_is_reported<T, E, P: Fn(&str) -> Result<T, E>>(
    entries: Map<Seq<char>, Seq<char>>,
    parse: P,
    error: MetaError<E>,
    key: Seq<char>,
)
    requires
        is_meta_error::<T, E, P>(entries, parse, error),
        match error {
            MetaError::Missing(k) => k@ == key,
            MetaError::BadInt { key: k, value: _ } => k@ == key,
            MetaError::BadReal { key: k, token: _, cause: _ } => k@ == key,
            _ => false,
        },
    ensures
        ({
            let first = key == "lfr_window_size"@;
            let second = key == "lfr_window_shift"@;
            let third = key == "neg_mean"@;
            let fourth = key == "inv_stddev"@;
            let fifth = key == "with_itn"@;
            let sixth = key == "without_itn"@;
            &&& first || second || third || fourth || fifth || sixth
            &&& !first ==> int_at(entries, "lfr_window_size"@) is Some
            &&& third || fourth || fifth || sixth ==> int_at(entries, "lfr_window_shift"@) is Some
            &&& fourth || fifth || sixth ==> exists|values: Seq<T>| #[trigger]
                reals_at(entries, parse, "neg_mean"@, values)
            &&& fifth || sixth ==> exists|values: Seq<T>| #[trigger]
                reals_at(entries, parse, "inv_stddev"@, values)
            &&& sixth ==> int_at(entries, "with_itn"@) is Some
        }),
{
    let i = choose|i: int|
        0 <= i < 6 && key == #[trigger] required_key(i) && readable_before::<T, E, P>(
            entries,
            parse,
            i,
        );
    assert(0 <= i < 6 && key == required_key(i) && readable_before::<T, E, P>(entries, parse, i))
        by {
        match error {
            MetaError::BadReal { key: k, token, cause } => {
                let (w, before) = choose|w: int, before: Seq<T>|
                    0 <= w < 6 && holds_reals(w) && k@ == required_key(w) && entries.contains_key(
                        k@,
                    ) && before.len() < fields(entries[k@]).len() && token@ == fields(
                        entries[k@],
                    )[before.len() as int] && #[trigger] are_reals(
                        parse,
                        fields(entries[required_key(w)]),
                        before,
                    ) && parses(parse, token@, Err::<T, E>(cause)) && readable_before(
                        entries,
                        parse,
                        w,
                    );
                assert(key == required_key(w));
            },
            _ => {},
        }
    }
    if key == "lfr_window_size"@ {
        required_keys_differ(i, 0);
    }
    if key == "lfr_window_shift"@ {
        required_keys_differ(i, 1);
    }
    if key == "neg_mean"@ {
        required_keys_differ(i, 2);
    }
    if key == "inv_stddev"@ {
        required_keys_differ(i, 3);
    }
    if key == "with_itn"@ {
        required_keys_differ(i, 4);
    }
    if key == "without_itn"@ {
        required_keys_differ(i, 5);
    }
    assert(i > 0 ==> readable::<T, E, P>(entries, parse, 0));
    assert(i > 1 ==> readable::<T, E, P>(entries, parse, 1));
    assert(i > 2 ==> readable::<T, E, P>(entries, parse, 2));
    assert(i > 3 ==> readable::<T, E, P>(entries, parse, 3));
    assert(i > 4 ==> readable::<T, E, P>(entries, parse, 4));
}

/// A key is missing where it has no value; its value is no integer, or one of its numbers cannot
/// be read, where it has one; and there are no languages where no key names one.
pub proof fn what_is_reported_is_so<T, E, P: Fn(&str) -> Result<T, E>>(
    entries: Map<Seq<char>, Seq<char>>,
    parse: P,
    error: MetaError<E>,
)
    requires
        is_meta_error::<T, E, P>(entries, parse, error),
    ensures
        error matches MetaError::Missing(key) ==> !entries.contains_key(key@),
        error matches MetaError::BadInt { key, value } ==> entries.contains_key(key@) && value@
            == text::trim(entries[key@]) && int_at(entries, key@) is None,
        error matches MetaError::BadReal { key, token, cause } ==> entries.contains_key(key@)
            && fields(entries[key@]).contains(token@) && exists|a: &str|
            a@ == token@ && #[trigger] call_ensures(parse, (a,), Err::<T, E>(cause)),
        error is NoLanguages ==> int_at(entries, "lang_"@ + "auto"@) is None && int_at(
            entries,
            "lang_"@ + "zh"@,
        ) is None && int_at(entries, "lang_"@ + "en"@) is None && int_at(
            entries,
            "lang_"@ + "ja"@,
        ) is None && int_at(entries, "lang_"@ + "ko"@) is None && int_at(
            entries,
            "lang_"@ + "yue"@,
        ) is None,
{
    match error {
        MetaError::BadReal { key, token, cause } => {
            let (w, before) = choose|w: int, before: Seq<T>|
                0 <= w < 6 && holds_reals(w) && key@ == required_key(w) && entries.contains_key(
                    key@,
                ) && before.len() < fields(entries[key@]).len() && token@ == fields(
                    entries[key@],
                )[before.len() as int] && #[trigger] are_reals(
                    parse,
                    fields(entries[required_key(w)]),
                    before,
                ) && parses(parse, token@, Err::<T, E>(cause)) && readable_before(
                    entries,
                    parse,
                    w,
                );
            assert(fields(entries[key@])[before.len() as int] == token@);
            assert(parses(parse, token@, Err::<T, E>(cause)));
        },
        MetaError::NoLanguages => {
            no_language_no_id(entries, 6);
            assert(language_at(entries, 0) is None);
            assert(language_at(entries, 1) is None);
            assert(language_at(entries, 2) is None);
            assert(language_at(entries, 3) is None);
            assert(language_at(entries, 4) is None);
            assert(language_at(entries, 5) is None);
        },
        _ => {},
    }
}

proof fn no_language_no_id(entries: Map<Seq<char>, Seq<char>>, k: nat)
    requires
        languages_up_to(entries, k).len() == 0,
    ensures
        forall|i: int| 0 <= i < k ==> #[trigger] language_at(entries, i) is None,
    decreases k,
{
    if k > 0 {
        no_language_no_id(entries, (k - 1) as nat);
    }
}

/// The contents of a list of languages are its names with their ids, in order.
pub proof fn languages_keep_their_order(v: Seq<(String, i32)>, i: int)
    requires
        0 <= i < v.len(),
    ensures
        language_views(v).len() == v.len(),
        language_views(v)[i] == (v[i].0@, v[i].1 as int),
{
}

} // verus!
