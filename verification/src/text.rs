//! Character-level text utilities, each specified over `Seq<char>`.

use vstd::prelude::*;
use vstd::relations::*;
use vstd::string::*;

verus! {

/// The characters of `s`, in order.
pub fn chars_of(s: &str) -> (out: Vec<char>)
    ensures
        out@ == s@,
{
    let mut out: Vec<char> = Vec::new();
    for c in it: s.chars()
        invariant
            out@ == it.seq().take(it.index() as int),
            it.seq() == s@,
    {
        out.push(c);
    }
    out
}

// ---------------------------------------------------------------------------
// Lexicographic order
// ---------------------------------------------------------------------------

/// `a` sorts no later than `b`: the lexicographic order of code points, which
/// is the order `str` and `String` compare by (UTF-8 keeps code-point order).
pub open spec fn text_le(a: Seq<char>, b: Seq<char>) -> bool
    decreases a.len(),
{
    if a.len() == 0 {
        true
    } else if b.len() == 0 {
        false
    } else if a[0] != b[0] {
        a[0] < b[0]
    } else {
        text_le(a.drop_first(), b.drop_first())
    }
}

/// The order as a relation, for use with vstd's ordering vocabulary.
pub open spec fn text_order() -> spec_fn(Seq<char>, Seq<char>) -> bool {
    |a: Seq<char>, b: Seq<char>| text_le(a, b)
}

pub proof fn lemma_text_le_reflexive(a: Seq<char>)
    ensures
        text_le(a, a),
    decreases a.len(),
{
    if a.len() > 0 {
        lemma_text_le_reflexive(a.drop_first());
    }
}

pub proof fn lemma_text_le_antisymmetric(a: Seq<char>, b: Seq<char>)
    requires
        text_le(a, b),
        text_le(b, a),
    ensures
        a == b,
    decreases a.len(),
{
    if a.len() > 0 && b.len() > 0 {
        lemma_text_le_antisymmetric(a.drop_first(), b.drop_first());
        assert(a =~= seq![a[0]] + a.drop_first());
        assert(b =~= seq![b[0]] + b.drop_first());
    } else {
        assert(a =~= b);
    }
}

pub proof fn lemma_text_le_transitive(a: Seq<char>, b: Seq<char>, c: Seq<char>)
    requires
        text_le(a, b),
        text_le(b, c),
    ensures
        text_le(a, c),
    decreases a.len(),
{
    if a.len() > 0 && b.len() > 0 && c.len() > 0 {
        if a[0] == b[0] && b[0] == c[0] {
            lemma_text_le_transitive(a.drop_first(), b.drop_first(), c.drop_first());
        }
    }
}

pub proof fn lemma_text_le_total(a: Seq<char>, b: Seq<char>)
    ensures
        text_le(a, b) || text_le(b, a),
    decreases a.len(),
{
    if a.len() > 0 && b.len() > 0 {
        if a[0] == b[0] {
            lemma_text_le_total(a.drop_first(), b.drop_first());
        }
    }
}

/// The text order is a total order.
pub proof fn lemma_text_order_total()
    ensures
        total_ordering(text_order()),
{
    let r = text_order();
    assert forall|x: Seq<char>| #[trigger] r(x, x) by {
        lemma_text_le_reflexive(x);
    }
    assert forall|x: Seq<char>, y: Seq<char>| #[trigger] r(x, y) && #[trigger] r(y, x) implies x
        == y by {
        lemma_text_le_antisymmetric(x, y);
    }
    assert forall|x: Seq<char>, y: Seq<char>, z: Seq<char>| #[trigger]
        r(x, y) && #[trigger] r(y, z) implies r(x, z) by {
        lemma_text_le_transitive(x, y, z);
    }
    assert forall|x: Seq<char>, y: Seq<char>| #[trigger] r(x, y) || #[trigger] r(y, x) by {
        lemma_text_le_total(x, y);
    }
}

/// A text sorts no later than any text it begins.
pub proof fn lemma_text_le_prefix(a: Seq<char>, b: Seq<char>)
    requires
        a.is_prefix_of(b),
    ensures
        text_le(a, b),
    decreases a.len(),
{
    if a.len() > 0 {
        assert(a[0] == b[0]);
        assert(a.drop_first().is_prefix_of(b.drop_first())) by {
            assert forall|i: int| 0 <= i < a.drop_first().len() implies a.drop_first()[i]
                == b.drop_first()[i] by {
                assert(a[i + 1] == b[i + 1]);
            }
        }
        lemma_text_le_prefix(a.drop_first(), b.drop_first());
    }
}

/// Two texts that agree before index `i` and differ there are ordered by
/// their characters at `i`.
pub proof fn lemma_text_le_first_difference(a: Seq<char>, b: Seq<char>, i: int)
    requires
        0 <= i < a.len(),
        i < b.len(),
        a.take(i) == b.take(i),
        a[i] < b[i],
    ensures
        text_le(a, b),
        !text_le(b, a),
    decreases i,
{
    if i > 0 {
        assert(a[0] == a.take(i)[0]);
        assert(b[0] == b.take(i)[0]);
        assert(a.drop_first().take(i - 1) =~= b.drop_first().take(i - 1)) by {
            assert forall|j: int| 0 <= j < i - 1 implies a.drop_first()[j] == b.drop_first()[j] by {
                assert(a.drop_first()[j] == a[j + 1]);
                assert(b.drop_first()[j] == b[j + 1]);
                assert(a.take(i)[j + 1] == a[j + 1]);
                assert(b.take(i)[j + 1] == b[j + 1]);
                assert(a.take(i)[j + 1] == b.take(i)[j + 1]);
            }
        }
        lemma_text_le_first_difference(a.drop_first(), b.drop_first(), i - 1);
    }
}

/// Two sequences of texts, both sorted in text order and holding the same
/// texts equally often, are the same sequence: sorting has one result.
pub proof fn lemma_sorted_unique(a: Seq<Seq<char>>, b: Seq<Seq<char>>)
    requires
        sorted_by(a, text_order()),
        sorted_by(b, text_order()),
        a.to_multiset() == b.to_multiset(),
    ensures
        a == b,
    decreases a.len(),
{
    broadcast use vstd::seq_lib::group_to_multiset_ensures;

    assert(a.to_multiset().len() == a.len());
    assert(b.to_multiset().len() == b.len());
    if a.len() == 0 {
        assert(b.len() == 0);
        assert(a =~= b);
    } else {
        assert(b.len() == a.len());
        assert(a.contains(a[0]));
        assert(b.to_multiset().count(a[0]) > 0);
        assert(b.contains(a[0]));
        let j = choose|j: int| 0 <= j < b.len() && b[j] == a[0];
        if j > 0 {
            assert(text_order()(b[0], b[j]));
        } else {
            lemma_text_le_reflexive(b[0]);
        }
        assert(b.contains(b[0]));
        assert(a.to_multiset().count(b[0]) > 0);
        assert(a.contains(b[0]));
        let k = choose|k: int| 0 <= k < a.len() && a[k] == b[0];
        if k > 0 {
            assert(text_order()(a[0], a[k]));
        } else {
            lemma_text_le_reflexive(a[0]);
        }
        lemma_text_le_antisymmetric(a[0], b[0]);
        let ra = a.remove(0);
        let rb = b.remove(0);
        assert(ra.to_multiset() =~= a.to_multiset().remove(a[0]));
        assert(rb.to_multiset() =~= b.to_multiset().remove(b[0]));
        assert forall|x: int, y: int| 0 <= x < y < ra.len() implies #[trigger] text_order()(
            ra[x],
            ra[y],
        ) by {
            assert(ra[x] == a[x + 1] && ra[y] == a[y + 1]);
            assert(text_order()(a[x + 1], a[y + 1]));
        }
        assert forall|x: int, y: int| 0 <= x < y < rb.len() implies #[trigger] text_order()(
            rb[x],
            rb[y],
        ) by {
            assert(rb[x] == b[x + 1] && rb[y] == b[y + 1]);
            assert(text_order()(b[x + 1], b[y + 1]));
        }
        lemma_sorted_unique(ra, rb);
        assert forall|i: int| 0 <= i < a.len() implies a[i] == b[i] by {
            if i > 0 {
                assert(a[i] == ra[i - 1] && b[i] == rb[i - 1]);
            }
        }
        assert(a =~= b);
    }
}

/// Compares two texts in the order of [`text_le`].
pub fn text_le_chars(a: &Vec<char>, b: &Vec<char>) -> (r: bool)
    ensures
        r == text_le(a@, b@),
{
    let mut i: usize = 0;
    assert(a@.skip(0) =~= a@);
    assert(b@.skip(0) =~= b@);
    while i < a.len() && i < b.len()
        invariant
            i <= a.len(),
            i <= b.len(),
            text_le(a@, b@) == text_le(a@.skip(i as int), b@.skip(i as int)),
        decreases a.len() - i,
    {
        if a[i] != b[i] {
            return a[i] < b[i];
        }
        assert(a@.skip(i as int).drop_first() =~= a@.skip(i + 1));
        assert(b@.skip(i as int).drop_first() =~= b@.skip(i + 1));
        i = i + 1;
    }
    i == a.len()
}

/// Compares two strings in the order of [`text_le`].
pub fn text_le_str(a: &str, b: &str) -> (r: bool)
    ensures
        r == text_le(a@, b@),
{
    let av = chars_of(a);
    let bv = chars_of(b);
    text_le_chars(&av, &bv)
}

/// Whether two strings hold the same characters.
pub fn same_text(a: &str, b: &str) -> (r: bool)
    ensures
        r == (a@ == b@),
{
    let av = chars_of(a);
    let bv = chars_of(b);
    if av.len() != bv.len() {
        return false;
    }
    let mut i: usize = 0;
    while i < av.len()
        invariant
            av@ == a@,
            bv@ == b@,
            av.len() == bv.len(),
            i <= av.len(),
            forall|j: int| 0 <= j < i ==> av@[j] == bv@[j],
        decreases av.len() - i,
    {
        if av[i] != bv[i] {
            return false;
        }
        i = i + 1;
    }
    assert(av@ =~= bv@);
    true
}


// ---------------------------------------------------------------------------
// Searching
// ---------------------------------------------------------------------------

/// `needle` occurs in `hay` starting at character index `i`.
pub open spec fn occurs_at(hay: Seq<char>, needle: Seq<char>, i: int) -> bool {
    &&& 0 <= i
    &&& i + needle.len() <= hay.len()
    &&& hay.subrange(i, i + needle.len()) == needle
}

/// `i` is where `needle` occurs in `hay` for the first time.
pub open spec fn is_first_occurrence(hay: Seq<char>, needle: Seq<char>, i: int) -> bool {
    &&& occurs_at(hay, needle, i)
    &&& forall|j: int| 0 <= j < i ==> !occurs_at(hay, needle, j)
}

/// The character index at which `needle` first occurs in `hay`, if it does;
/// `str::find` reports the same position (counted in bytes).
pub open spec fn find_text(hay: Seq<char>, needle: Seq<char>) -> Option<int> {
    if exists|i: int| occurs_at(hay, needle, i) {
        Some(choose|i: int| is_first_occurrence(hay, needle, i))
    } else {
        None
    }
}

proof fn lemma_first_occurrence_exists(hay: Seq<char>, needle: Seq<char>, k: int)
    requires
        occurs_at(hay, needle, k),
    ensures
        exists|i: int| is_first_occurrence(hay, needle, i),
    decreases k,
{
    if exists|j: int| 0 <= j < k && occurs_at(hay, needle, j) {
        let j = choose|j: int| 0 <= j < k && occurs_at(hay, needle, j);
        lemma_first_occurrence_exists(hay, needle, j);
    } else {
        assert(is_first_occurrence(hay, needle, k));
    }
}

/// What [`find_text`] returns is the first occurrence, and `None` means none.
pub proof fn lemma_find_text(hay: Seq<char>, needle: Seq<char>)
    ensures
        match find_text(hay, needle) {
            Some(i) => is_first_occurrence(hay, needle, i),
            None => forall|i: int| !occurs_at(hay, needle, i),
        },
{
    if exists|i: int| occurs_at(hay, needle, i) {
        let k = choose|i: int| occurs_at(hay, needle, i);
        lemma_first_occurrence_exists(hay, needle, k);
    }
}

/// A first occurrence is unique, so [`find_text`] is pinned down by it.
pub proof fn lemma_find_text_at(hay: Seq<char>, needle: Seq<char>, i: int)
    requires
        is_first_occurrence(hay, needle, i),
    ensures
        find_text(hay, needle) == Some(i),
{
    lemma_find_text(hay, needle);
    let j = find_text(hay, needle)->0;
    if j < i {
        assert(!occurs_at(hay, needle, j));
    } else if i < j {
        assert(!occurs_at(hay, needle, i));
    }
}

/// A single character occurs exactly where the text holds it.
pub proof fn lemma_occurs_char(hay: Seq<char>, c: char, i: int)
    ensures
        occurs_at(hay, seq![c], i) <==> (0 <= i < hay.len() && hay[i] == c),
{
    if 0 <= i < hay.len() {
        if hay[i] == c {
            assert(hay.subrange(i, i + 1) =~= seq![c]);
        } else {
            assert(hay.subrange(i, i + 1)[0] == hay[i]);
        }
    }
}

/// Whether `needle` occurs in `hay` at `from + i`.
fn matches_at(hay: &Vec<char>, i: usize, needle: &Vec<char>) -> (r: bool)
    requires
        i + needle.len() <= hay.len(),
    ensures
        r == (hay@.subrange(i as int, i + needle.len()) == needle@),
{
    let mut k: usize = 0;
    while k < needle.len()
        invariant
            i + needle.len() <= hay.len(),
            k <= needle.len(),
            forall|j: int| 0 <= j < k ==> hay@[i + j] == needle@[j],
        decreases needle.len() - k,
    {
        if hay[i + k] != needle[k] {
            assert(hay@.subrange(i as int, i + needle.len())[k as int] != needle@[k as int]);
            return false;
        }
        k = k + 1;
    }
    assert(hay@.subrange(i as int, i + needle.len()) =~= needle@);
    true
}

/// Where `needle` first occurs in the window `hay[from..to]`, counted from `from`.
pub fn find_in_window(hay: &Vec<char>, from: usize, to: usize, needle: &Vec<char>) -> (r: Option<
    usize,
>)
    requires
        from <= to <= hay.len(),
    ensures
        match r {
            Some(i) => find_text(hay@.subrange(from as int, to as int), needle@) == Some(i as int),
            None => find_text(hay@.subrange(from as int, to as int), needle@) is None,
        },
{
    let ghost w = hay@.subrange(from as int, to as int);
    if needle.len() > to - from {
        proof {
            lemma_find_text(w, needle@);
        }
        return None;
    }
    let last = to - needle.len();
    let mut i: usize = from;
    loop
        invariant
            from <= i <= last,
            last + needle.len() == to,
            to <= hay.len(),
            w == hay@.subrange(from as int, to as int),
            forall|j: int| 0 <= j < i - from ==> !occurs_at(w, needle@, j),
        ensures
            forall|j: int| 0 <= j <= last - from ==> !occurs_at(w, needle@, j),
        decreases last - i,
    {
        let hit = matches_at(hay, i, needle);
        assert(w.subrange(i - from, i - from + needle.len()) =~= hay@.subrange(
            i as int,
            i + needle.len(),
        ));
        if hit {
            proof {
                lemma_find_text_at(w, needle@, i - from);
            }
            return Some(i - from);
        }
        if i == last {
            break;
        }
        i = i + 1;
    }
    proof {
        lemma_find_text(w, needle@);
    }
    None
}

/// Where the character `c` first occurs in the window `hay[from..to]`, counted from `from`.
pub fn find_char_in_window(hay: &Vec<char>, from: usize, to: usize, c: char) -> (r: Option<usize>)
    requires
        from <= to <= hay.len(),
    ensures
        match r {
            Some(i) => find_text(hay@.subrange(from as int, to as int), seq![c]) == Some(i as int),
            None => find_text(hay@.subrange(from as int, to as int), seq![c]) is None,
        },
{
    let ghost w = hay@.subrange(from as int, to as int);
    let mut i: usize = from;
    while i < to
        invariant
            from <= i <= to,
            to <= hay.len(),
            w == hay@.subrange(from as int, to as int),
            forall|j: int| 0 <= j < i - from ==> w[j] != c,
        decreases to - i,
    {
        if hay[i] == c {
            proof {
                assert forall|j: int| 0 <= j < i - from implies !occurs_at(w, seq![c], j) by {
                    lemma_occurs_char(w, c, j);
                }
                lemma_occurs_char(w, c, i - from);
                lemma_find_text_at(w, seq![c], i - from);
            }
            return Some(i - from);
        }
        i = i + 1;
    }
    proof {
        lemma_find_text(w, seq![c]);
        assert forall|j: int| !occurs_at(w, seq![c], j) by {
            lemma_occurs_char(w, c, j);
        }
    }
    None
}


// ---------------------------------------------------------------------------
// Trimming
// ---------------------------------------------------------------------------

/// Unicode's `White_Space` characters, the set `char::is_whitespace` tests for.
pub open spec fn is_white_space(c: char) -> bool {
    ||| ('\u{9}' <= c && c <= '\u{D}')
    ||| c == ' '
    ||| c == '\u{85}'
    ||| c == '\u{A0}'
    ||| c == '\u{1680}'
    ||| ('\u{2000}' <= c && c <= '\u{200A}')
    ||| c == '\u{2028}'
    ||| c == '\u{2029}'
    ||| c == '\u{202F}'
    ||| c == '\u{205F}'
    ||| c == '\u{3000}'
}

/// Tests [`is_white_space`].
pub fn is_unicode_white_space(c: char) -> (r: bool)
    ensures
        r == is_white_space(c),
{
    ('\u{9}' <= c && c <= '\u{D}') || c == ' ' || c == '\u{85}' || c == '\u{A0}' || c
        == '\u{1680}' || ('\u{2000}' <= c && c <= '\u{200A}') || c == '\u{2028}' || c
        == '\u{2029}' || c == '\u{202F}' || c == '\u{205F}' || c == '\u{3000}'
}

/// The characters that a trim removes.
pub enum CharClass {
    WhiteSpace,
    Exactly(char),
}

pub open spec fn in_class(class: CharClass, c: char) -> bool {
    match class {
        CharClass::WhiteSpace => is_white_space(c),
        CharClass::Exactly(x) => c == x,
    }
}

fn class_contains(class: &CharClass, c: char) -> (r: bool)
    ensures
        r == in_class(*class, c),
{
    match class {
        CharClass::WhiteSpace => is_unicode_white_space(c),
        CharClass::Exactly(x) => c == *x,
    }
}

/// `s` without its leading characters of `class`.
pub open spec fn strip_start(s: Seq<char>, class: CharClass) -> Seq<char>
    decreases s.len(),
{
    if s.len() > 0 && in_class(class, s[0]) {
        strip_start(s.drop_first(), class)
    } else {
        s
    }
}

/// `s` without its trailing characters of `class`.
pub open spec fn strip_end(s: Seq<char>, class: CharClass) -> Seq<char>
    decreases s.len(),
{
    if s.len() > 0 && in_class(class, s.last()) {
        strip_end(s.drop_last(), class)
    } else {
        s
    }
}

/// `s` without leading and trailing characters of `class`, as `str::trim`
/// (for white space) and `str::trim_matches` (for one character) give it.
pub open spec fn strip(s: Seq<char>, class: CharClass) -> Seq<char> {
    strip_end(strip_start(s, class), class)
}

/// The bounds, within `v[lo..hi]`, of that window with characters of `class`
/// stripped from both ends.
pub fn strip_bounds(v: &Vec<char>, lo: usize, hi: usize, class: CharClass) -> (r: (usize, usize))
    requires
        lo <= hi <= v.len(),
    ensures
        lo <= r.0 <= r.1 <= hi,
        v@.subrange(r.0 as int, r.1 as int) == strip(v@.subrange(lo as int, hi as int), class),
{
    let mut a: usize = lo;
    while a < hi && class_contains(&class, v[a])
        invariant
            lo <= a <= hi <= v.len(),
            strip_start(v@.subrange(lo as int, hi as int), class) == strip_start(
                v@.subrange(a as int, hi as int),
                class,
            ),
        decreases hi - a,
    {
        assert(v@.subrange(a as int, hi as int).drop_first() =~= v@.subrange(a + 1, hi as int));
        a = a + 1;
    }
    let mut b: usize = hi;
    while b > a && class_contains(&class, v[b - 1])
        invariant
            lo <= a <= b <= hi <= v.len(),
            strip(v@.subrange(lo as int, hi as int), class) == strip_end(
                v@.subrange(a as int, b as int),
                class,
            ),
        decreases b - a,
    {
        assert(v@.subrange(a as int, b as int).drop_last() =~= v@.subrange(a as int, b - 1));
        b = b - 1;
    }
    (a, b)
}

/// Stripping removes a run of `class` characters from each end and keeps
/// what lies between: the result is the piece `s[a..a + len]`, everything
/// before `a` and after it is of `class`, and the piece neither starts nor
/// ends with a character of `class`.
pub proof fn lemma_strip_piece(s: Seq<char>, class: CharClass)
    ensures
        exists|a: int|
            #![trigger s.subrange(a, a + strip(s, class).len())]
            0 <= a && a + strip(s, class).len() <= s.len() && s.subrange(a, a + strip(s, class).len())
                == strip(s, class) && (forall|j: int| 0 <= j < a ==> in_class(class, #[trigger] s[j]))
                && (forall|j: int| a + strip(s, class).len() <= j < s.len() ==> in_class(class, #[trigger] s[j])),
        strip(s, class).len() > 0 ==> !in_class(class, strip(s, class)[0]),
        strip(s, class).len() > 0 ==> !in_class(class, strip(s, class).last()),
{
    let t = strip_start(s, class);
    let u = strip(s, class);
    lemma_strip_start(s, class);
    lemma_strip_end(t, class);
    lemma_strip(s, class);
    let a = s.len() - t.len();
    assert(s.subrange(a, a + u.len()) =~= u) by {
        assert forall|k: int| 0 <= k < u.len() implies s.subrange(a, a + u.len())[k] == u[k] by {
            assert(u[k] == t[k]);
            assert(t[k] == s[a + k]);
        }
    }
    assert forall|j: int| a + u.len() <= j < s.len() implies in_class(class, #[trigger] s[j]) by {
        assert(s[j] == t[j - a]);
    }
}

/// Stripping the start leaves a suffix, which starts with a character
/// outside `class` unless it is empty.
pub proof fn lemma_strip_start(s: Seq<char>, class: CharClass)
    ensures
        strip_start(s, class).len() <= s.len(),
        strip_start(s, class) == s.skip(s.len() - strip_start(s, class).len()),
        strip_start(s, class).len() > 0 ==> !in_class(class, strip_start(s, class)[0]),
        forall|j: int| 0 <= j < s.len() - strip_start(s, class).len() ==> in_class(class, #[trigger] s[j]),
    decreases s.len(),
{
    if s.len() > 0 && in_class(class, s[0]) {
        lemma_strip_start(s.drop_first(), class);
        assert forall|j: int| 0 <= j < s.len() - strip_start(s, class).len() implies in_class(class, #[trigger] s[j]) by {
            if j > 0 {
                assert(s[j] == s.drop_first()[j - 1]);
            }
        }
        let t = strip_start(s.drop_first(), class);
        assert(s.drop_first().skip(s.drop_first().len() - t.len()) =~= s.skip(s.len() - t.len()));
    } else {
        assert(s.skip(0) =~= s);
    }
}

/// Stripping the end leaves a prefix, which ends with a character outside
/// `class` unless it is empty.
pub proof fn lemma_strip_end(s: Seq<char>, class: CharClass)
    ensures
        strip_end(s, class).len() <= s.len(),
        strip_end(s, class) == s.take(strip_end(s, class).len() as int),
        strip_end(s, class).len() > 0 ==> !in_class(class, strip_end(s, class).last()),
        forall|j: int| strip_end(s, class).len() <= j < s.len() ==> in_class(class, #[trigger] s[j]),
    decreases s.len(),
{
    if s.len() > 0 && in_class(class, s.last()) {
        lemma_strip_end(s.drop_last(), class);
        assert forall|j: int| strip_end(s, class).len() <= j < s.len() implies in_class(class, #[trigger] s[j]) by {
            if j < s.len() - 1 {
                assert(s[j] == s.drop_last()[j]);
            }
        }
        let t = strip_end(s.drop_last(), class);
        assert(s.drop_last().take(t.len() as int) =~= s.take(t.len() as int));
    } else {
        assert(s.take(s.len() as int) =~= s);
    }
}

/// A stripped text is made of characters of the text it came from, and neither starts nor ends
/// with a character of `class`.
pub proof fn lemma_strip(s: Seq<char>, class: CharClass)
    ensures
        forall|k: int| 0 <= k < strip(s, class).len() ==> s.contains(#[trigger] strip(s, class)[k]),
        strip(s, class).len() > 0 ==> !in_class(class, strip(s, class)[0]),
        strip(s, class).len() > 0 ==> !in_class(class, strip(s, class).last()),
{
    let a = strip_start(s, class);
    let b = strip(s, class);
    lemma_strip_start(s, class);
    lemma_strip_end(a, class);
    let off = s.len() - a.len();
    assert forall|k: int| 0 <= k < b.len() implies s.contains(#[trigger] b[k]) by {
        assert(b[k] == a[k]);
        assert(a[k] == s[off + k]);
    }
    if b.len() > 0 {
        assert(b[0] == a[0]);
    }
}

// ---------------------------------------------------------------------------
// Splitting
// ---------------------------------------------------------------------------

/// The pieces of `s` between occurrences of `c`, as `str::split` yields them:
/// one more piece than there are `c`s, empty pieces included.
pub open spec fn split_on(s: Seq<char>, c: char) -> Seq<Seq<char>>
    decreases s.len(),
{
    match find_text(s, seq![c]) {
        Some(i) => {
            proof {
                lemma_find_text(s, seq![c]);
            }
            seq![s.take(i)] + split_on(s.skip(i + 1), c)
        },
        None => seq![s],
    }
}

/// The part of `s` before the first `c`, all of `s` when there is none:
/// the first piece that `str::split` yields.
pub open spec fn before_first(s: Seq<char>, c: char) -> Seq<char> {
    match find_text(s, seq![c]) {
        Some(i) => s.take(i),
        None => s,
    }
}

/// No piece that `split_on` yields holds the separator.
pub proof fn lemma_split_pieces(s: Seq<char>, c: char)
    ensures
        forall|k: int| 0 <= k < split_on(s, c).len() ==> !(#[trigger] split_on(s, c)[k]).contains(c),
    decreases s.len(),
{
    lemma_find_text(s, seq![c]);
    match find_text(s, seq![c]) {
        Some(i) => {
            let rest = s.skip(i + 1);
            lemma_split_pieces(rest, c);
            assert forall|j: int| 0 <= j < i implies s.take(i)[j] != c by {
                lemma_occurs_char(s, c, j);
            }
            let pieces = split_on(s, c);
            assert forall|k: int| 0 <= k < pieces.len() implies !(#[trigger] pieces[k]).contains(c) by {
                if k == 0 {
                    assert(pieces[0] == s.take(i));
                } else {
                    assert(pieces[k] == split_on(rest, c)[k - 1]);
                }
            }
        },
        None => {
            assert forall|j: int| 0 <= j < s.len() implies s[j] != c by {
                lemma_occurs_char(s, c, j);
            }
        },
    }
}

/// The pieces joined back with the separator between them.
pub open spec fn join_with(pieces: Seq<Seq<char>>, c: char) -> Seq<char>
    decreases pieces.len(),
{
    if pieces.len() == 0 {
        Seq::empty()
    } else if pieces.len() == 1 {
        pieces[0]
    } else {
        pieces[0] + seq![c] + join_with(pieces.drop_first(), c)
    }
}

/// Splitting loses nothing: joining the pieces with the separator gives the
/// text back, and there is one piece more than there are separators.
pub proof fn lemma_split_join(s: Seq<char>, c: char)
    ensures
        join_with(split_on(s, c), c) == s,
        split_on(s, c).len() >= 1,
    decreases s.len(),
{
    lemma_find_text(s, seq![c]);
    match find_text(s, seq![c]) {
        Some(i) => {
            let rest = s.skip(i + 1);
            lemma_split_join(rest, c);
            let pieces = split_on(s, c);
            assert(pieces.drop_first() =~= split_on(rest, c));
            lemma_occurs_char(s, c, i);
            assert(s =~= s.take(i) + seq![c] + rest);
        },
        None => {},
    }
}

/// The part before the first `c` holds no `c`.
pub proof fn lemma_before_first(s: Seq<char>, c: char)
    ensures
        !before_first(s, c).contains(c),
        before_first(s, c).is_prefix_of(s),
        before_first(s, c).len() < s.len() ==> s[before_first(s, c).len() as int] == c,
        forall|k: int| 0 <= k < before_first(s, c).len() ==> s.contains(#[trigger] before_first(s, c)[k]),
{
    lemma_find_text(s, seq![c]);
    if let Some(i) = find_text(s, seq![c]) {
        lemma_occurs_char(s, c, i);
    }
    assert forall|j: int| 0 <= j < before_first(s, c).len() implies before_first(s, c)[j] != c by {
        lemma_occurs_char(s, c, j);
    }
    assert forall|k: int| 0 <= k < before_first(s, c).len() implies s.contains(#[trigger] before_first(s, c)[k]) by {
        assert(before_first(s, c)[k] == s[k]);
    }
}

// ---------------------------------------------------------------------------
// Decimal numerals
// ---------------------------------------------------------------------------

pub open spec fn digit_char(d: int) -> char {
    seq!['0', '1', '2', '3', '4', '5', '6', '7', '8', '9'][d]
}

/// The decimal numeral of `n`, without sign or leading zeros.
pub open spec fn decimal(n: nat) -> Seq<char>
    decreases n,
{
    if n < 10 {
        seq![digit_char(n as int)]
    } else {
        decimal(n / 10).push(digit_char((n % 10) as int))
    }
}

/// Every character of a decimal numeral is a digit.
pub proof fn lemma_decimal_digits(n: nat)
    ensures
        decimal(n).len() > 0,
        forall|k: int| 0 <= k < decimal(n).len() ==> '0' <= #[trigger] decimal(n)[k] <= '9',
    decreases n,
{
    lemma_digit_char((n % 10) as int);
    if n >= 10 {
        lemma_decimal_digits(n / 10);
    }
}

proof fn lemma_digit_char(d: int)
    requires
        0 <= d < 10,
    ensures
        '0' <= digit_char(d) <= '9',
        digit_char(d) as int == '0' as int + d,
{
    let digits = seq!['0', '1', '2', '3', '4', '5', '6', '7', '8', '9'];
    assert(digits[d] == digit_char(d));
    if d == 0 {} else if d == 1 {} else if d == 2 {} else if d == 3 {} else if d == 4 {
    } else if d == 5 {} else if d == 6 {} else if d == 7 {} else if d == 8 {} else {}
}

/// The number that a numeral of decimal digits denotes, most significant
/// digit first.
pub open spec fn numeral_value(s: Seq<char>) -> int
    decreases s.len(),
{
    if s.len() == 0 {
        0
    } else {
        10 * numeral_value(s.drop_last()) + (s.last() as int - '0' as int)
    }
}

/// [`decimal`] writes `n`: its digits denote `n`, and it has no leading zero.
/// These two facts fix the numeral.
pub proof fn lemma_decimal_denotes(n: nat)
    ensures
        numeral_value(decimal(n)) == n,
        decimal(n).len() > 0,
        forall|k: int| 0 <= k < decimal(n).len() ==> '0' <= #[trigger] decimal(n)[k] <= '9',
        decimal(n).len() > 1 ==> decimal(n)[0] != '0',
        n > 0 ==> decimal(n)[0] != '0',
    decreases n,
{
    lemma_decimal_digits(n);
    lemma_digit_char((n % 10) as int);
    if n >= 10 {
        lemma_decimal_denotes(n / 10);
        let d = decimal(n);
        assert(d.drop_last() =~= decimal(n / 10));
        assert(d[0] == decimal(n / 10)[0]);
        assert(d.last() == digit_char((n % 10) as int));
        assert(numeral_value(d) == 10 * numeral_value(decimal(n / 10)) + (n % 10));
        assert(10 * (n / 10) + n % 10 == n);
    } else {
        lemma_digit_char(n as int);
        assert(decimal(n).drop_last() =~= Seq::<char>::empty());
        assert(numeral_value(decimal(n)) == 10 * numeral_value(Seq::<char>::empty()) + n);
    }
}

/// Writes `n` in decimal.
pub fn decimal_text(n: u64) -> (r: String)
    ensures
        r@ == decimal(n as nat),
    decreases n,
{
    let digits = "0123456789";
    proof {
        reveal_strlit("0123456789");
    }
    let d = (n % 10) as usize;
    assert(digits@.subrange(d as int, d + 1) =~= seq![digit_char(d as int)]);
    if n < 10 {
        String::from_str(digits.substring_char(d, d + 1))
    } else {
        let mut out = decimal_text(n / 10);
        out.append(digits.substring_char(d, d + 1));
        out
    }
}

} // verus!
