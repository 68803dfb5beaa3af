//! The configuration file: which semester start dates to offer, and the
//! time zone in which "today" is taken.

use vstd::prelude::*;
use vstd::string::*;

use crate::text::{
    before_first, chars_of, find_char_in_window, find_in_window, find_text, in_class,
    is_first_occurrence, is_white_space, lemma_before_first, lemma_find_text, lemma_find_text_at,
    lemma_occurs_char, lemma_split_pieces, lemma_strip, occurs_at, split_on, strip, strip_bounds,
    strip_end, strip_start, CharClass,
};

verus! {

/// The settings read from `config.toml`.
#[derive(Debug)]
pub struct Config {
    /// The semester start dates, as written in the file.
    pub base_dates: Vec<String>,
    /// The IANA name of the time zone that "today" is taken in.
    pub timezone: String,
}

/// The text that follows the first `key` in `source`, past the first `start`
/// after it, up to the next `end`; `None` when any of the three is missing.
pub open spec fn text_between(source: Seq<char>, key: Seq<char>, start: char, end: char) -> Option<
    Seq<char>,
> {
    match find_text(source, key) {
        None => None,
        Some(k) => {
            let tail = source.skip(k);
            match find_text(tail, seq![start]) {
                None => None,
                Some(a) => {
                    let rest = tail.skip(a + 1);
                    match find_text(rest, seq![end]) {
                        None => None,
                        Some(b) => Some(rest.take(b)),
                    }
                },
            }
        },
    }
}

/// `c` is encoded in UTF-8 as a single byte.
pub open spec fn is_single_byte(c: char) -> bool {
    c <= '\u{7F}'
}

/// `start` occurs after the first `key` in `source`.
pub open spec fn start_follows_key(source: Seq<char>, key: Seq<char>, start: char) -> bool {
    match find_text(source, key) {
        Some(k) => find_text(source.skip(k), seq![start]) is Some,
        None => false,
    }
}

/// The text between the first `start` and the next `end` after the first
/// occurrence of `key` in `source`. A `start` of more than one byte is not
/// taken when it occurs there: the text would be cut inside it.
pub fn extract_between(source: &str, key: &str, start: char, end: char) -> (r: Option<String>)
    requires
        is_single_byte(start) || !start_follows_key(source@, key@, start),
    ensures
        match r {
            Some(s) => text_between(source@, key@, start, end) == Some(s@),
            None => text_between(source@, key@, start, end) is None,
        },
{
    let sv = chars_of(source);
    let kv = chars_of(key);
    let n = sv.len();
    assert(sv@.subrange(0, n as int) =~= sv@);
    let k = match find_in_window(&sv, 0, n, &kv) {
        Some(k) => k,
        None => return None,
    };
    proof {
        lemma_find_text(sv@, kv@);
    }
    assert(sv@.subrange(k as int, n as int) =~= sv@.skip(k as int));
    let a = match find_char_in_window(&sv, k, n, start) {
        Some(a) => a,
        None => return None,
    };
    proof {
        lemma_find_text(sv@.skip(k as int), seq![start]);
    }
    let from = k + a + 1;
    assert(sv@.subrange(from as int, n as int) =~= sv@.skip(k as int).skip(a + 1));
    let b = match find_char_in_window(&sv, from, n, end) {
        Some(b) => b,
        None => return None,
    };
    proof {
        lemma_find_text(sv@.skip(k as int).skip(a + 1), seq![end]);
    }
    assert(sv@.subrange(from as int, from + b) =~= sv@.skip(k as int).skip(a + 1).take(b as int));
    Some(String::from_str(source.substring_char(from, from + b)))
}

/// The text between the first two double quotes after the first `key`.
pub fn extract_quoted_value(source: &str, key: &str) -> (r: Option<String>)
    ensures
        match r {
            Some(s) => text_between(source@, key@, '"', '"') == Some(s@),
            None => text_between(source@, key@, '"', '"') is None,
        },
{
    extract_between(source, key, '"', '"')
}

/// One comma-separated field of the `base_date` array, cleaned: trimmed,
/// stripped of double quotes at either end, cut at the first `#`, and
/// trimmed again.
pub open spec fn date_entry(field: Seq<char>) -> Seq<char> {
    strip(
        before_first(strip(strip(field, CharClass::WhiteSpace), CharClass::Exactly('"')), '#'),
        CharClass::WhiteSpace,
    )
}

/// The cleaned, non-empty fields of the text inside the `base_date` brackets.
pub open spec fn date_entries(raw: Seq<char>) -> Seq<Seq<char>> {
    split_on(raw, ',').map_values(|f: Seq<char>| date_entry(f)).filter(
        |e: Seq<char>| e.len() > 0,
    )
}

/// A cleaned field as it is kept: itself when non-empty, nothing otherwise.
pub open spec fn kept(e: Seq<char>) -> Seq<Seq<char>> {
    if e.len() > 0 {
        seq![e]
    } else {
        seq![]
    }
}

proof fn lemma_kept_filter(e: Seq<char>)
    ensures
        seq![e].filter(|x: Seq<char>| x.len() > 0) == kept(e),
{
    reveal_with_fuel(Seq::filter, 2);
    assert(seq![e].drop_last() =~= Seq::<Seq<char>>::empty());
    let f = seq![e].filter(|x: Seq<char>| x.len() > 0);
    if e.len() > 0 {
        assert(f =~= seq![e]);
    } else {
        assert(f =~= Seq::<Seq<char>>::empty());
    }
}

/// The entries of a field list, one field at a time from the front.
proof fn lemma_date_entries_unfold(w: Seq<char>)
    ensures
        match find_text(w, seq![',']) {
            Some(i) => date_entries(w) == kept(date_entry(w.take(i))) + date_entries(
                w.skip(i + 1),
            ),
            None => date_entries(w) == kept(date_entry(w)),
        },
{
    let f = |x: Seq<char>| date_entry(x);
    let p = |e: Seq<char>| e.len() > 0;
    match find_text(w, seq![',']) {
        Some(i) => {
            let rest = split_on(w.skip(i + 1), ',');
            assert(split_on(w, ',') == seq![w.take(i)] + rest);
            assert((seq![w.take(i)] + rest).map_values(f) =~= seq![date_entry(w.take(i))]
                + rest.map_values(f));
            Seq::filter_distributes_over_add(seq![date_entry(w.take(i))], rest.map_values(f), p);
            lemma_kept_filter(date_entry(w.take(i)));
        },
        None => {
            assert(split_on(w, ',') == seq![w]);
            assert(seq![w].map_values(f) =~= seq![date_entry(w)]);
            lemma_kept_filter(date_entry(w));
        },
    }
}

/// The cleaned entry of the field `v[lo..hi]`, as bounds into `v`.
fn entry_bounds(v: &Vec<char>, lo: usize, hi: usize) -> (r: (usize, usize))
    requires
        lo <= hi <= v.len(),
    ensures
        r.0 <= r.1 <= v.len(),
        v@.subrange(r.0 as int, r.1 as int) == date_entry(v@.subrange(lo as int, hi as int)),
{
    let (a1, b1) = strip_bounds(v, lo, hi, CharClass::WhiteSpace);
    let (a2, b2) = strip_bounds(v, a1, b1, CharClass::Exactly('"'));
    let ghost quoted = v@.subrange(a2 as int, b2 as int);
    proof {
        lemma_find_text(quoted, seq!['#']);
    }
    let cut = match find_char_in_window(v, a2, b2, '#') {
        Some(i) => {
            assert(v@.subrange(a2 as int, a2 + i) =~= quoted.take(i as int));
            a2 + i
        },
        None => b2,
    };
    assert(v@.subrange(a2 as int, cut as int) == before_first(quoted, '#'));
    strip_bounds(v, a2, cut, CharClass::WhiteSpace)
}

/// The messages with which [`parse_config_toml`] rejects a file.
pub open spec fn config_outcome(text: Seq<char>) -> Result<(Seq<Seq<char>>, Seq<char>), Seq<char>> {
    match text_between(text, "base_date"@, '[', ']') {
        None => Err("config.toml missing base_date array"@),
        Some(raw) => {
            let dates = date_entries(raw);
            if dates.len() == 0 {
                Err("config.toml base_date array is empty"@)
            } else {
                match text_between(text, "timezone"@, '"', '"') {
                    None => Err("config.toml missing timezone"@),
                    Some(zone) => Ok((dates, zone)),
                }
            }
        },
    }
}

/// The cleaned entries of the `base_date` array, given its text.
fn parse_date_entries(raw: &str) -> (r: Vec<String>)
    ensures
        r.deep_view() == date_entries(raw@),
{
    let v = chars_of(raw);
    let n = v.len();
    let mut dates: Vec<String> = Vec::new();
    let mut start: usize = 0;
    assert(v@.subrange(0, n as int) =~= raw@);
    loop
        invariant_except_break
            date_entries(raw@) == dates.deep_view() + date_entries(
                v@.subrange(start as int, n as int),
            ),
        invariant
            v@ == raw@,
            n == v.len(),
            start <= n,
        ensures
            date_entries(raw@) == dates.deep_view(),
        decreases n - start,
    {
        let ghost w = v@.subrange(start as int, n as int);
        proof {
            lemma_date_entries_unfold(w);
            lemma_find_text(w, seq![',']);
        }
        let ghost before = dates.deep_view();
        let (field_end, last) = match find_char_in_window(&v, start, n, ',') {
            Some(i) => (start + i, false),
            None => (n, true),
        };
        assert(v@.subrange(start as int, field_end as int) =~= if last {
            w
        } else {
            w.take(field_end - start)
        });
        let (a, b) = entry_bounds(&v, start, field_end);
        if a < b {
            dates.push(String::from_str(raw.substring_char(a, b)));
            assert(dates.deep_view() =~= before + kept(date_entry(
                v@.subrange(start as int, field_end as int),
            )));
        } else {
            assert(dates.deep_view() =~= before + kept(date_entry(
                v@.subrange(start as int, field_end as int),
            )));
        }
        if last {
            assert(date_entries(raw@) =~= dates.deep_view());
            break;
        }
        assert(v@.subrange(field_end + 1, n as int) =~= w.skip(field_end - start + 1));
        start = field_end + 1;
        assert(date_entries(raw@) =~= dates.deep_view() + date_entries(
            v@.subrange(start as int, n as int),
        ));
    }
    dates
}

/// Reads the configuration from the text of `config.toml`.
pub fn parse_config_toml(toml: &str) -> (r: Result<Config, &'static str>)
    ensures
        match (r, config_outcome(toml@)) {
            (Ok(config), Ok((dates, zone))) => config.base_dates.deep_view() == dates
                && config.timezone@ == zone,
            (Err(message), Err(expected)) => message@ == expected,
            _ => false,
        },
{
    let raw = match extract_between(toml, "base_date", '[', ']') {
        Some(raw) => raw,
        None => return Err("config.toml missing base_date array"),
    };
    let base_dates = parse_date_entries(raw.as_str());
    if base_dates.len() == 0 {
        return Err("config.toml base_date array is empty");
    }
    let timezone = match extract_quoted_value(toml, "timezone") {
        Some(zone) => zone,
        None => return Err("config.toml missing timezone"),
    };
    Ok(Config { base_dates, timezone })
}

/// What every start date read from the file is like: not empty, free of
/// commas and `#`, and neither starting nor ending with white space.
pub open spec fn is_clean_entry(e: Seq<char>) -> bool {
    &&& e.len() > 0
    &&& !e.contains(',')
    &&& !e.contains('#')
    &&& !is_white_space(e[0])
    &&& !is_white_space(e.last())
}

/// A field cleaned by [`date_entry`] holds nothing of the field's separators.
proof fn lemma_date_entry(field: Seq<char>)
    requires
        !field.contains(','),
    ensures
        !date_entry(field).contains(','),
        !date_entry(field).contains('#'),
        date_entry(field).len() > 0 ==> !is_white_space(date_entry(field)[0]),
        date_entry(field).len() > 0 ==> !is_white_space(date_entry(field).last()),
{
    let t1 = strip(field, CharClass::WhiteSpace);
    let t2 = strip(t1, CharClass::Exactly('"'));
    let t3 = before_first(t2, '#');
    let t4 = strip(t3, CharClass::WhiteSpace);
    lemma_strip(field, CharClass::WhiteSpace);
    lemma_strip(t1, CharClass::Exactly('"'));
    lemma_before_first(t2, '#');
    lemma_strip(t3, CharClass::WhiteSpace);
    assert forall|k: int| 0 <= k < t4.len() implies t4[k] != ',' && t4[k] != '#' by {
        assert(t3.contains(t4[k]));
        let k3 = choose|k3: int| 0 <= k3 < t3.len() && t3[k3] == t4[k];
        assert(t2.contains(t3[k3]));
        let k2 = choose|k2: int| 0 <= k2 < t2.len() && t2[k2] == t3[k3];
        assert(t1.contains(t2[k2]));
        let k1 = choose|k1: int| 0 <= k1 < t1.len() && t1[k1] == t2[k2];
        assert(field.contains(t1[k1]));
    }
    if t4.len() > 0 {
        assert(in_class(CharClass::WhiteSpace, t4[0]) == is_white_space(t4[0]));
        assert(in_class(CharClass::WhiteSpace, t4.last()) == is_white_space(t4.last()));
    }
}

/// Every start date that the file yields is clean: not empty, without comma
/// or `#`, and without white space at either end.
pub proof fn lemma_date_entries_clean(raw: Seq<char>)
    ensures
        forall|k: int| 0 <= k < date_entries(raw).len() ==> is_clean_entry(
            #[trigger] date_entries(raw)[k],
        ),
{
    let pieces = split_on(raw, ',');
    let f = |x: Seq<char>| date_entry(x);
    let p = |e: Seq<char>| e.len() > 0;
    let mapped = pieces.map_values(f);
    lemma_split_pieces(raw, ',');
    assert forall|k: int| 0 <= k < date_entries(raw).len() implies is_clean_entry(
        #[trigger] date_entries(raw)[k],
    ) by {
        let e = date_entries(raw)[k];
        mapped.lemma_filter_pred(p, k);
        assert(mapped.filter(p).contains(e));
        mapped.lemma_filter_contains_rev(p, e);
        let j = choose|j: int| 0 <= j < mapped.len() && mapped[j] == e;
        assert(!pieces[j].contains(','));
        lemma_date_entry(pieces[j]);
    }
}

/// A start date read by [`parse_config_toml`] is always clean.
pub proof fn lemma_parsed_dates_clean(text: Seq<char>)
    ensures
        config_outcome(text) matches Ok((dates, _)) ==> forall|k: int| 0 <= k < dates.len()
            ==> is_clean_entry(#[trigger] dates[k]),
{
    if let Some(raw) = text_between(text, "base_date"@, '[', ']') {
        lemma_date_entries_clean(raw);
    }
}

/// [`text_between`] in terms of first occurrences: the text begins just past
/// the first `start` that follows the first `key`, and ends at the first
/// `end` after that.
pub proof fn lemma_text_between_at(
    source: Seq<char>,
    key: Seq<char>,
    start: char,
    end: char,
    k: int,
    a: int,
    b: int,
)
    requires
        is_first_occurrence(source, key, k),
        is_first_occurrence(source.skip(k), seq![start], a),
        is_first_occurrence(source.skip(k + a + 1), seq![end], b),
    ensures
        text_between(source, key, start, end) == Some(
            source.subrange(k + a + 1, k + a + 1 + b),
        ),
{
    lemma_find_text_at(source, key, k);
    lemma_find_text_at(source.skip(k), seq![start], a);
    assert(source.skip(k).skip(a + 1) =~= source.skip(k + a + 1));
    lemma_find_text_at(source.skip(k + a + 1), seq![end], b);
    assert(source.skip(k + a + 1).take(b) =~= source.subrange(k + a + 1, k + a + 1 + b));
}

/// Where the time zone is looked for: once the `base_date` array yields a
/// date, the file is accepted exactly when a quoted value follows the first
/// `timezone` anywhere in the file, before or after `base_date`, and that
/// value is the time zone; the dates are those of the array.
pub proof fn lemma_config_timezone(text: Seq<char>)
    requires
        text_between(text, "base_date"@, '[', ']') matches Some(raw) && date_entries(raw).len()
            > 0,
    ensures
        config_outcome(text) is Ok <==> text_between(text, "timezone"@, '"', '"') is Some,
        config_outcome(text) matches Ok((dates, zone)) ==> Some(zone) == text_between(
            text,
            "timezone"@,
            '"',
            '"',
        ) && dates == date_entries(text_between(text, "base_date"@, '[', ']')->0),
        text_between(text, "timezone"@, '"', '"') is None ==> config_outcome(text) == Err::<
            (Seq<Seq<char>>, Seq<char>),
            Seq<char>,
        >("config.toml missing timezone"@),
{
}

/// A file is refused for a missing array, an empty array or a missing time
/// zone, and only for those, in that order of precedence.
pub proof fn lemma_config_errors(text: Seq<char>)
    ensures
        text_between(text, "base_date"@, '[', ']') is None ==> config_outcome(text) == Err::<
            (Seq<Seq<char>>, Seq<char>),
            Seq<char>,
        >("config.toml missing base_date array"@),
        text_between(text, "base_date"@, '[', ']') matches Some(raw) && date_entries(raw).len()
            == 0 ==> config_outcome(text) == Err::<(Seq<Seq<char>>, Seq<char>), Seq<char>>(
            "config.toml base_date array is empty"@,
        ),
{
}

proof fn lemma_before_first_absent(s: Seq<char>, c: char)
    requires
        !s.contains(c),
    ensures
        before_first(s, c) == s,
{
    lemma_find_text(s, seq![c]);
    if let Some(i) = find_text(s, seq![c]) {
        lemma_occurs_char(s, c, i);
        assert(s.contains(s[i]));
    }
}

/// A clean date that does not start or end with a double quote is read as
/// it stands.
pub proof fn lemma_date_entry_plain(date: Seq<char>)
    requires
        is_clean_entry(date),
        date[0] != '"',
        date.last() != '"',
    ensures
        date_entry(date) == date,
{
    assert(strip_start(date, CharClass::WhiteSpace) == date);
    assert(strip_end(date, CharClass::WhiteSpace) == date);
    assert(strip_start(date, CharClass::Exactly('"')) == date);
    assert(strip_end(date, CharClass::Exactly('"')) == date);
    lemma_before_first_absent(date, '#');
}

/// A clean date written between double quotes is read without them.
pub proof fn lemma_date_entry_quoted(date: Seq<char>)
    requires
        is_clean_entry(date),
        date[0] != '"',
        date.last() != '"',
    ensures
        date_entry(seq!['"'] + date + seq!['"']) == date,
{
    let q = seq!['"'] + date + seq!['"'];
    let quote = CharClass::Exactly('"');
    assert(q[0] == '"');
    assert(q.last() == '"');
    assert(strip_start(q, CharClass::WhiteSpace) == q);
    assert(strip_end(q, CharClass::WhiteSpace) == q);
    assert(q.drop_first() =~= date + seq!['"']);
    assert((date + seq!['"'])[0] == date[0]);
    assert(strip_start(date + seq!['"'], quote) == date + seq!['"']);
    assert(strip_start(q, quote) == date + seq!['"']);
    assert((date + seq!['"']).drop_last() =~= date);
    assert(strip_end(date, quote) == date);
    assert(strip_end(date + seq!['"'], quote) == date);
    lemma_date_entry_plain(date);
}

/// Fields are read one by one: a field without a comma, a comma, and the
/// rest give the field's date (if it yields one) followed by the dates of
/// the rest.
pub proof fn lemma_date_entries_field(field: Seq<char>, rest: Seq<char>)
    requires
        !field.contains(','),
    ensures
        date_entries(field + seq![','] + rest) == kept(date_entry(field)) + date_entries(rest),
        date_entries(field) == kept(date_entry(field)),
{
    let w = field + seq![','] + rest;
    let at = field.len() as int;
    lemma_occurs_char(w, ',', at);
    assert forall|j: int| 0 <= j < at implies !occurs_at(w, seq![','], j) by {
        lemma_occurs_char(w, ',', j);
        assert(w[j] == field[j]);
    }
    lemma_find_text_at(w, seq![','], at);
    lemma_date_entries_unfold(w);
    assert(w.take(at) =~= field);
    assert(w.skip(at + 1) =~= rest);
    lemma_date_entries_unfold(field);
    lemma_find_text(field, seq![',']);
    if let Some(i) = find_text(field, seq![',']) {
        lemma_occurs_char(field, ',', i);
        assert(field.contains(field[i]));
    }
}

} // verus!
