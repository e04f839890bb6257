//! The configuration file format.
//!
//! A file is a list of sections.  Each section starts with a header
//! line `[name]` and is followed by one line per item: `key=value`
//! for an item that has a value, or a bare `key` for an item whose
//! value was cleared.  The reader is lenient, as a human-editable
//! file asks: blank lines and comment lines (`;` or `#`) are
//! skipped, and whitespace around a line, a section name, a key and
//! a value is trimmed.  A repeated key keeps its first position and
//! takes the last value; a repeated section header reopens the same
//! section.  So whatever parses at all parses to a store with no
//! duplicate section or key, and a proved round-trip law says that
//! serializing such a store and parsing the text back reproduces it
//! exactly.

use vstd::prelude::*;

verus! {

/// One item of a section: a key, and its value unless it was cleared.
#[verifier::ext_equal]
pub ghost struct SpecItem {
    pub key: Seq<char>,
    pub value: Option<Seq<char>>,
}

/// One section: a name and its items, in file order.
#[verifier::ext_equal]
pub ghost struct SpecSection {
    pub name: Seq<char>,
    pub items: Seq<SpecItem>,
}

/// An exec item, viewed as a `SpecItem`.
pub struct Item {
    pub key: String,
    pub value: Option<String>,
}

impl View for Item {
    type V = SpecItem;

    open spec fn view(&self) -> SpecItem {
        SpecItem { key: self.key@, value: self.value.deep_view() }
    }
}

impl DeepView for Item {
    type V = SpecItem;

    open spec fn deep_view(&self) -> SpecItem {
        self.view()
    }
}

/// An exec section, viewed as a `SpecSection`.
pub struct Section {
    pub name: String,
    pub items: Vec<Item>,
}

impl View for Section {
    type V = SpecSection;

    open spec fn view(&self) -> SpecSection {
        SpecSection { name: self.name@, items: self.items.deep_view() }
    }
}

impl DeepView for Section {
    type V = SpecSection;

    open spec fn deep_view(&self) -> SpecSection {
        self.view()
    }
}

// ---------------------------------------------------------------
// Trimming.
// ---------------------------------------------------------------

/// The whitespace the reader trims.
pub open spec fn is_ws(c: char) -> bool {
    c == ' ' || c == '\t'
}

pub open spec fn trim_start(s: Seq<char>) -> Seq<char>
    decreases s.len(),
{
    if s.len() > 0 && is_ws(s[0]) {
        trim_start(s.drop_first())
    } else {
        s
    }
}

pub open spec fn trim_end(s: Seq<char>) -> Seq<char>
    decreases s.len(),
{
    if s.len() > 0 && is_ws(s.last()) {
        trim_end(s.drop_last())
    } else {
        s
    }
}

/// A string without its leading and trailing whitespace.
pub open spec fn trim(s: Seq<char>) -> Seq<char> {
    trim_end(trim_start(s))
}

// ---------------------------------------------------------------
// Well-formedness: what the line format can carry faithfully.
// ---------------------------------------------------------------

/// A section name: no line break, and no whitespace at its edges
/// (the reader trims it away).
pub open spec fn wf_name(n: Seq<char>) -> bool {
    &&& forall|i: int| 0 <= i < n.len() ==> #[trigger] n[i] != '\n'
    &&& n.len() > 0 ==> !is_ws(n[0]) && !is_ws(n.last())
}

/// A key is non-empty, does not open like a header or a comment,
/// has no whitespace at its edges, and holds neither a line break
/// nor the separator.
pub open spec fn wf_key(k: Seq<char>) -> bool {
    &&& k.len() > 0
    &&& k[0] != '[' && k[0] != ';' && k[0] != '#'
    &&& !is_ws(k[0]) && !is_ws(k.last())
    &&& forall|i: int| 0 <= i < k.len() ==> #[trigger] k[i] != '\n' && k[i] != '='
}

/// A value: no line break, and no whitespace at its edges.
pub open spec fn wf_value(v: Seq<char>) -> bool {
    &&& forall|i: int| 0 <= i < v.len() ==> #[trigger] v[i] != '\n'
    &&& v.len() > 0 ==> !is_ws(v[0]) && !is_ws(v.last())
}

pub open spec fn wf_item(it: SpecItem) -> bool {
    &&& wf_key(it.key)
    &&& match it.value {
        Some(v) => wf_value(v),
        None => true,
    }
}

pub open spec fn wf_section(s: SpecSection) -> bool {
    &&& wf_name(s.name)
    &&& forall|i: int| 0 <= i < s.items.len() ==> wf_item(#[trigger] s.items[i])
}

/// A whole store model that the file format can carry faithfully.
pub open spec fn wf_model(m: Seq<SpecSection>) -> bool {
    forall|i: int| 0 <= i < m.len() ==> wf_section(#[trigger] m[i])
}

/// No two items of a section share a key.
pub open spec fn distinct_keys(items: Seq<SpecItem>) -> bool {
    forall|i: int, j: int| 0 <= i < j < items.len() ==> items[i].key != items[j].key
}

/// No two sections share a name.
pub open spec fn distinct_names(m: Seq<SpecSection>) -> bool {
    forall|i: int, j: int| 0 <= i < j < m.len() ==> m[i].name != m[j].name
}

/// A duplicate-free store: section names distinct, and keys distinct
/// within each section.  Parsing only ever yields such stores, and
/// every write preserves the shape.
pub open spec fn dedup_model(m: Seq<SpecSection>) -> bool {
    &&& distinct_names(m)
    &&& forall|i: int| 0 <= i < m.len() ==> distinct_keys(#[trigger] m[i].items)
}

pub open spec fn has_key(items: Seq<SpecItem>, k: Seq<char>) -> bool {
    exists|l: int| 0 <= l < items.len() && (#[trigger] items[l]).key == k
}

pub open spec fn has_name(m: Seq<SpecSection>, n: Seq<char>) -> bool {
    exists|l: int| 0 <= l < m.len() && (#[trigger] m[l]).name == n
}

// ---------------------------------------------------------------
// The map semantics of a section list.
// ---------------------------------------------------------------

/// The first section of that name, if any.
pub open spec fn find_section(m: Seq<SpecSection>, name: Seq<char>) -> Option<SpecSection>
    decreases m.len(),
{
    if m.len() == 0 {
        None
    } else if m[0].name == name {
        Some(m[0])
    } else {
        find_section(m.drop_first(), name)
    }
}

/// The first item of that key, if any.
pub open spec fn find_item(items: Seq<SpecItem>, key: Seq<char>) -> Option<SpecItem>
    decreases items.len(),
{
    if items.len() == 0 {
        None
    } else if items[0].key == key {
        Some(items[0])
    } else {
        find_item(items.drop_first(), key)
    }
}

/// The visible value under a section and key: `None` when the
/// section or key is absent or the key's value was cleared.
pub open spec fn spec_get(m: Seq<SpecSection>, section: Seq<char>, key: Seq<char>) -> Option<
    Seq<char>,
> {
    match find_section(m, section) {
        None => None,
        Some(s) => match find_item(s.items, key) {
            None => None,
            Some(it) => it.value,
        },
    }
}

/// Write a value (or a cleared slot) under a key, replacing the first
/// matching item or appending a new one.
pub open spec fn set_in_items(
    items: Seq<SpecItem>,
    key: Seq<char>,
    value: Option<Seq<char>>,
) -> Seq<SpecItem>
    decreases items.len(),
{
    if items.len() == 0 {
        seq![SpecItem { key, value }]
    } else if items[0].key == key {
        seq![SpecItem { key, value }] + items.drop_first()
    } else {
        seq![items[0]] + set_in_items(items.drop_first(), key, value)
    }
}

/// Write a value (or a cleared slot) under a section and key,
/// touching the first matching section or appending a new one.
pub open spec fn spec_set(
    m: Seq<SpecSection>,
    section: Seq<char>,
    key: Seq<char>,
    value: Option<Seq<char>>,
) -> Seq<SpecSection>
    decreases m.len(),
{
    if m.len() == 0 {
        seq![SpecSection { name: section, items: seq![SpecItem { key, value }] }]
    } else if m[0].name == section {
        seq![SpecSection { name: m[0].name, items: set_in_items(m[0].items, key, value) }]
            + m.drop_first()
    } else {
        seq![m[0]] + spec_set(m.drop_first(), section, key, value)
    }
}

/// Open a section: keep the store when one of that name exists,
/// otherwise append an empty one.
pub open spec fn ensure_section(m: Seq<SpecSection>, name: Seq<char>) -> Seq<SpecSection> {
    if find_section(m, name) is Some {
        m
    } else {
        m.push(SpecSection { name, items: Seq::empty() })
    }
}

// ---------------------------------------------------------------
// Serialization.
// ---------------------------------------------------------------

/// The header line of a section.
pub open spec fn header_line(name: Seq<char>) -> Seq<char> {
    seq!['['] + name + seq![']']
}

/// The line of one item.
pub open spec fn item_line(it: SpecItem) -> Seq<char> {
    match it.value {
        Some(v) => it.key + seq!['='] + v,
        None => it.key,
    }
}

/// The lines of a run of items.
pub open spec fn item_lines(items: Seq<SpecItem>) -> Seq<Seq<char>>
    decreases items.len(),
{
    if items.len() == 0 {
        Seq::empty()
    } else {
        seq![item_line(items[0])] + item_lines(items.drop_first())
    }
}

/// The lines of a whole model.
pub open spec fn model_lines(m: Seq<SpecSection>) -> Seq<Seq<char>>
    decreases m.len(),
{
    if m.len() == 0 {
        Seq::empty()
    } else {
        seq![header_line(m[0].name)] + item_lines(m[0].items) + model_lines(m.drop_first())
    }
}

/// Joining lines: every line is followed by a line break.
pub open spec fn text_of_lines(lines: Seq<Seq<char>>) -> Seq<char>
    decreases lines.len(),
{
    if lines.len() == 0 {
        Seq::empty()
    } else {
        lines[0] + seq!['\n'] + text_of_lines(lines.drop_first())
    }
}

/// The serialized text of a model.
pub open spec fn spec_ini_text(m: Seq<SpecSection>) -> Seq<char> {
    text_of_lines(model_lines(m))
}

// ---------------------------------------------------------------
// Parsing.
// ---------------------------------------------------------------

/// The first index of `c` in `t`, or `t.len()` when absent.
pub open spec fn find_char(t: Seq<char>, c: char) -> int
    decreases t.len(),
{
    if t.len() == 0 {
        0
    } else if t[0] == c {
        0
    } else {
        1 + find_char(t.drop_first(), c)
    }
}

/// Splitting text at line breaks; a trailing break closes the last
/// line rather than opening an empty one.
pub open spec fn split_lines(t: Seq<char>) -> Seq<Seq<char>>
    decreases t.len(),
{
    if t.len() == 0 {
        Seq::empty()
    } else {
        let i = find_char(t, '\n');
        if 0 <= i < t.len() {
            seq![t.take(i)] + split_lines(t.skip(i + 1))
        } else {
            seq![t]
        }
    }
}

/// What one line means.
#[verifier::ext_equal]
pub ghost enum LineKind {
    Header(Seq<char>),
    Pair(SpecItem),
    /// A blank line or a comment line: skipped.
    Blank,
    Bad,
}

/// Classify a line, after trimming it: blank and comment lines are
/// skipped; `[name]` opens a section; a line with `=` is a pair
/// with key and value trimmed; a bare word is a cleared key.
pub open spec fn classify(raw: Seq<char>) -> LineKind {
    let l = trim(raw);
    if l.len() == 0 {
        LineKind::Blank
    } else if l[0] == ';' || l[0] == '#' {
        LineKind::Blank
    } else if l.len() >= 2 && l[0] == '[' && l.last() == ']' {
        LineKind::Header(trim(l.subrange(1, l.len() - 1)))
    } else if l[0] == '[' {
        LineKind::Bad
    } else {
        let i = find_char(l, '=');
        if i == 0 {
            LineKind::Bad
        } else if i == l.len() {
            LineKind::Pair(SpecItem { key: l, value: None })
        } else {
            LineKind::Pair(
                SpecItem { key: trim(l.take(i)), value: Some(trim(l.skip(i + 1))) },
            )
        }
    }
}

/// The parse state machine: the store built so far and the open
/// section's name.  A header opens (or reopens) its section; a pair
/// is written through the store's own first-match update, so a
/// repeated key takes the last value; `None` when a line is rejected
/// or an item stands before the first header.
pub open spec fn run_parse(
    m: Seq<SpecSection>,
    cur: Option<Seq<char>>,
    lines: Seq<Seq<char>>,
) -> Option<Seq<SpecSection>>
    decreases lines.len(),
{
    if lines.len() == 0 {
        Some(m)
    } else {
        match classify(lines[0]) {
            LineKind::Header(name) => run_parse(
                ensure_section(m, name),
                Some(name),
                lines.drop_first(),
            ),
            LineKind::Pair(it) => match cur {
                None => None,
                Some(name) => run_parse(
                    spec_set(m, name, it.key, it.value),
                    cur,
                    lines.drop_first(),
                ),
            },
            LineKind::Blank => run_parse(m, cur, lines.drop_first()),
            LineKind::Bad => None,
        }
    }
}

/// The meaning of a configuration file text.
pub open spec fn spec_parse_ini(t: Seq<char>) -> Option<Seq<SpecSection>> {
    run_parse(Seq::empty(), None, split_lines(t))
}

// ---------------------------------------------------------------
// Facts about find_char.
// ---------------------------------------------------------------

/// `find_char` points at the first occurrence, or past the end.
pub proof fn lemma_find_char(t: Seq<char>, c: char)
    ensures
        0 <= find_char(t, c) <= t.len(),
        find_char(t, c) < t.len() ==> t[find_char(t, c)] == c,
        forall|i: int| 0 <= i < find_char(t, c) ==> #[trigger] t[i] != c,
    decreases t.len(),
{
    if t.len() > 0 && t[0] != c {
        lemma_find_char(t.drop_first(), c);
        assert forall|i: int| 0 <= i < find_char(t, c) implies #[trigger] t[i] != c by {
            if i > 0 {
                assert(t.drop_first()[i - 1] == t[i]);
            }
        }
    }
}

/// If nothing before `j` is `c`, and `j` is the end or holds `c`,
/// then `find_char` is exactly `j`.
pub proof fn lemma_find_char_is(t: Seq<char>, c: char, j: int)
    requires
        0 <= j <= t.len(),
        forall|i: int| 0 <= i < j ==> #[trigger] t[i] != c,
        j < t.len() ==> t[j] == c,
    ensures
        find_char(t, c) == j,
    decreases t.len(),
{
    if t.len() > 0 && t[0] != c {
        assert(j != 0 || t.len() == 0);
        if j == 0 {
            assert(t[0] == c);
        } else {
            let d = t.drop_first();
            assert forall|i: int| 0 <= i < j - 1 implies #[trigger] d[i] != c by {
                assert(d[i] == t[i + 1]);
            }
            assert(j - 1 < d.len() ==> d[j - 1] == c);
            lemma_find_char_is(d, c, j - 1);
        }
    }
}

// ---------------------------------------------------------------
// Facts about trimming.
// ---------------------------------------------------------------

/// `trim_start` drops exactly a whitespace prefix.
proof fn lemma_trim_start_shape(s: Seq<char>)
    ensures
        trim_start(s).len() <= s.len(),
        trim_start(s) == s.skip(s.len() - trim_start(s).len()),
        trim_start(s).len() > 0 ==> !is_ws(trim_start(s)[0]),
    decreases s.len(),
{
    if s.len() > 0 && is_ws(s[0]) {
        lemma_trim_start_shape(s.drop_first());
        let r = trim_start(s);
        assert(s.drop_first().skip(s.drop_first().len() - r.len()) =~= s.skip(s.len() - r.len()));
    } else {
        assert(s.skip(0) =~= s);
    }
}

/// `trim_end` drops exactly a whitespace suffix.
proof fn lemma_trim_end_shape(s: Seq<char>)
    ensures
        trim_end(s).len() <= s.len(),
        trim_end(s) == s.take(trim_end(s).len() as int),
        trim_end(s).len() > 0 ==> !is_ws(trim_end(s).last()),
    decreases s.len(),
{
    if s.len() > 0 && is_ws(s.last()) {
        lemma_trim_end_shape(s.drop_last());
        let r = trim_end(s);
        assert(s.drop_last() =~= s.take(s.len() - 1));
        assert(s.take(s.len() - 1).take(r.len() as int) =~= s.take(r.len() as int));
    } else {
        assert(s.take(s.len() as int) =~= s);
    }
}

/// A string whose head is not whitespace keeps it through `trim_end`.
proof fn lemma_trim_end_keeps_head(s: Seq<char>)
    requires
        s.len() > 0,
        !is_ws(s[0]),
    ensures
        trim_end(s).len() > 0,
        trim_end(s)[0] == s[0],
    decreases s.len(),
{
    if is_ws(s.last()) {
        assert(s.len() >= 2);
        assert(s.drop_last()[0] == s[0]);
        lemma_trim_end_keeps_head(s.drop_last());
    }
}

/// A string with no whitespace at either edge trims to itself.
proof fn lemma_trim_id(s: Seq<char>)
    requires
        s.len() == 0 || (!is_ws(s[0]) && !is_ws(s.last())),
    ensures
        trim(s) == s,
{
    assert(trim_start(s) == s);
    assert(trim_end(s) == s);
}

/// What trimming leaves: a contiguous piece of the input with no
/// whitespace at either edge.
proof fn lemma_trim_shape(s: Seq<char>)
    ensures
        trim(s).len() <= trim_start(s).len() <= s.len(),
        forall|k: int|
            0 <= k < trim(s).len() ==> #[trigger] trim(s)[k] == s[k + s.len() - trim_start(
                s,
            ).len()],
        trim(s).len() > 0 ==> !is_ws(trim(s)[0]) && !is_ws(trim(s).last()),
{
    lemma_trim_start_shape(s);
    lemma_trim_end_shape(trim_start(s));
    let ts = trim_start(s);
    let r = trim(s);
    assert forall|k: int| 0 <= k < r.len() implies #[trigger] r[k] == s[k + s.len() - ts.len()] by {
        assert(r[k] == ts.take(r.len() as int)[k]);
        assert(ts[k] == s.skip(s.len() - ts.len())[k]);
    }
    if r.len() > 0 {
        assert(!is_ws(r.last()));
        assert(ts.len() > 0);
        lemma_trim_end_keeps_head(ts);
    }
}

// ---------------------------------------------------------------
// First-match lookups and updates as sequence surgery.
// ---------------------------------------------------------------

/// A section is found exactly when one of that name is present.
pub proof fn lemma_find_section_absent(m: Seq<SpecSection>, name: Seq<char>)
    ensures
        (find_section(m, name) is None) <==> (forall|l: int|
            0 <= l < m.len() ==> (#[trigger] m[l]).name != name),
    decreases m.len(),
{
    if m.len() > 0 && m[0].name != name {
        lemma_find_section_absent(m.drop_first(), name);
        let d = m.drop_first();
        assert(forall|l: int| 0 <= l < d.len() ==> #[trigger] d[l] == m[l + 1]);
        if find_section(m, name) is None {
            assert forall|l: int| 0 <= l < m.len() implies (#[trigger] m[l]).name != name by {
                if l > 0 {
                    assert(d[l - 1] == m[l]);
                }
            }
        }
    }
}

/// Writing at the first matching key is an update in place.
pub proof fn lemma_set_in_items_at(
    items: Seq<SpecItem>,
    key: Seq<char>,
    value: Option<Seq<char>>,
    j: int,
)
    requires
        0 <= j < items.len(),
        items[j].key == key,
        forall|l: int| 0 <= l < j ==> #[trigger] items[l].key != key,
    ensures
        set_in_items(items, key, value) == items.update(j, SpecItem { key, value }),
    decreases j,
{
    if j == 0 {
        assert(set_in_items(items, key, value) =~= items.update(0, SpecItem { key, value }));
    } else {
        assert(items[0].key != key);
        let d = items.drop_first();
        assert(forall|l: int| 0 <= l < j - 1 ==> #[trigger] d[l].key != key) by {
            assert(forall|l: int| 0 <= l < d.len() ==> #[trigger] d[l] == items[l + 1]);
        }
        assert(d[j - 1] == items[j]);
        lemma_set_in_items_at(d, key, value, j - 1);
        assert(set_in_items(items, key, value) =~= items.update(j, SpecItem { key, value }));
    }
}

/// Writing an absent key appends it.
pub proof fn lemma_set_in_items_append(
    items: Seq<SpecItem>,
    key: Seq<char>,
    value: Option<Seq<char>>,
)
    requires
        forall|l: int| 0 <= l < items.len() ==> #[trigger] items[l].key != key,
    ensures
        set_in_items(items, key, value) == items.push(SpecItem { key, value }),
    decreases items.len(),
{
    if items.len() == 0 {
        assert(set_in_items(items, key, value) =~= items.push(SpecItem { key, value }));
    } else {
        let d = items.drop_first();
        assert(forall|l: int| 0 <= l < d.len() ==> #[trigger] d[l] == items[l + 1]);
        lemma_set_in_items_append(d, key, value);
        assert(set_in_items(items, key, value) =~= items.push(SpecItem { key, value }));
    }
}

/// Writing into the first matching section is an update in place.
pub proof fn lemma_spec_set_at(
    m: Seq<SpecSection>,
    section: Seq<char>,
    key: Seq<char>,
    value: Option<Seq<char>>,
    i: int,
)
    requires
        0 <= i < m.len(),
        m[i].name == section,
        forall|l: int| 0 <= l < i ==> #[trigger] m[l].name != section,
    ensures
        spec_set(m, section, key, value) == m.update(
            i,
            SpecSection { name: m[i].name, items: set_in_items(m[i].items, key, value) },
        ),
    decreases i,
{
    if i == 0 {
        assert(spec_set(m, section, key, value) =~= m.update(
            0,
            SpecSection { name: m[0].name, items: set_in_items(m[0].items, key, value) },
        ));
    } else {
        assert(m[0].name != section);
        let d = m.drop_first();
        assert(forall|l: int| 0 <= l < d.len() ==> #[trigger] d[l] == m[l + 1]);
        assert(d[i - 1] == m[i]);
        lemma_spec_set_at(d, section, key, value, i - 1);
        assert(spec_set(m, section, key, value) =~= m.update(
            i,
            SpecSection { name: m[i].name, items: set_in_items(m[i].items, key, value) },
        ));
    }
}

/// Writing under an absent section appends a fresh one.
pub proof fn lemma_spec_set_append(
    m: Seq<SpecSection>,
    section: Seq<char>,
    key: Seq<char>,
    value: Option<Seq<char>>,
)
    requires
        forall|l: int| 0 <= l < m.len() ==> #[trigger] m[l].name != section,
    ensures
        spec_set(m, section, key, value) == m.push(
            SpecSection { name: section, items: seq![SpecItem { key, value }] },
        ),
    decreases m.len(),
{
    if m.len() == 0 {
        assert(spec_set(m, section, key, value) =~= m.push(
            SpecSection { name: section, items: seq![SpecItem { key, value }] },
        ));
    } else {
        let d = m.drop_first();
        assert(forall|l: int| 0 <= l < d.len() ==> #[trigger] d[l] == m[l + 1]);
        lemma_spec_set_append(d, section, key, value);
        assert(spec_set(m, section, key, value) =~= m.push(
            SpecSection { name: section, items: seq![SpecItem { key, value }] },
        ));
    }
}

pub proof fn lemma_find_section_prefix(m: Seq<SpecSection>, name: Seq<char>, i: int)
    requires
        0 <= i <= m.len(),
        forall|l: int| 0 <= l < i ==> #[trigger] m[l].name != name,
    ensures
        find_section(m, name) == find_section(m.skip(i), name),
    decreases i,
{
    if i > 0 {
        lemma_find_section_prefix(m, name, i - 1);
        let r = m.skip(i - 1);
        assert(r[0] == m[i - 1]);
        assert(r[0].name != name);
        assert(r.drop_first() =~= m.skip(i));
    } else {
        assert(m.skip(0) =~= m);
    }
}

pub proof fn lemma_find_item_prefix(items: Seq<SpecItem>, key: Seq<char>, j: int)
    requires
        0 <= j <= items.len(),
        forall|l: int| 0 <= l < j ==> #[trigger] items[l].key != key,
    ensures
        find_item(items, key) == find_item(items.skip(j), key),
    decreases j,
{
    if j > 0 {
        lemma_find_item_prefix(items, key, j - 1);
        let r = items.skip(j - 1);
        assert(r[0] == items[j - 1]);
        assert(r[0].key != key);
        assert(r.drop_first() =~= items.skip(j));
    } else {
        assert(items.skip(0) =~= items);
    }
}

// ---------------------------------------------------------------
// Writes keep the store well formed and duplicate-free.
// ---------------------------------------------------------------

proof fn lemma_items_set_wf(items: Seq<SpecItem>, key: Seq<char>, value: Option<Seq<char>>)
    requires
        forall|i: int| 0 <= i < items.len() ==> wf_item(#[trigger] items[i]),
        wf_key(key),
        match value {
            Some(v) => wf_value(v),
            None => true,
        },
    ensures
        forall|i: int|
            0 <= i < set_in_items(items, key, value).len() ==> wf_item(
                #[trigger] set_in_items(items, key, value)[i],
            ),
    decreases items.len(),
{
    let w = set_in_items(items, key, value);
    if items.len() == 0 {
        assert(w[0] == SpecItem { key, value });
    } else if items[0].key == key {
        assert forall|i: int| 0 <= i < w.len() implies wf_item(#[trigger] w[i]) by {
            if i == 0 {
                assert(w[0] == SpecItem { key, value });
            } else {
                assert(w[i] == items[i]);
            }
        }
    } else {
        lemma_items_set_wf(items.drop_first(), key, value);
        assert forall|i: int| 0 <= i < w.len() implies wf_item(#[trigger] w[i]) by {
            if i == 0 {
                assert(w[0] == items[0]);
            } else {
                assert(w[i] == set_in_items(items.drop_first(), key, value)[i - 1]);
            }
        }
    }
}

/// A write of well-formed strings keeps the whole store well formed,
/// so it still fits the file format.
pub proof fn lemma_set_preserves_wf(
    m: Seq<SpecSection>,
    section: Seq<char>,
    key: Seq<char>,
    value: Option<Seq<char>>,
)
    requires
        wf_model(m),
        wf_name(section),
        wf_key(key),
        match value {
            Some(v) => wf_value(v),
            None => true,
        },
    ensures
        wf_model(spec_set(m, section, key, value)),
    decreases m.len(),
{
    let w = spec_set(m, section, key, value);
    if m.len() == 0 {
        assert(w[0].items[0] == SpecItem { key, value });
        assert(wf_section(w[0]));
    } else if m[0].name == section {
        assert(wf_section(m[0]));
        lemma_items_set_wf(m[0].items, key, value);
        assert(wf_section(w[0]));
        assert forall|i: int| 0 <= i < w.len() implies wf_section(#[trigger] w[i]) by {
            if i > 0 {
                assert(w[i] == m[i]);
            }
        }
    } else {
        assert(wf_model(m.drop_first())) by {
            assert(forall|i: int|
                0 <= i < m.drop_first().len() ==> #[trigger] m.drop_first()[i] == m[i + 1]);
        }
        lemma_set_preserves_wf(m.drop_first(), section, key, value);
        assert forall|i: int| 0 <= i < w.len() implies wf_section(#[trigger] w[i]) by {
            if i == 0 {
                assert(w[0] == m[0]);
            } else {
                assert(w[i] == spec_set(m.drop_first(), section, key, value)[i - 1]);
            }
        }
    }
}

/// A write keeps keys distinct within the section, and brings in no
/// key but its own.
pub proof fn lemma_set_in_items_dedup(
    items: Seq<SpecItem>,
    key: Seq<char>,
    value: Option<Seq<char>>,
)
    requires
        distinct_keys(items),
    ensures
        ({
            let w = set_in_items(items, key, value);
            &&& distinct_keys(w)
            &&& forall|j: int|
                0 <= j < w.len() ==> (#[trigger] w[j]).key == key || has_key(items, w[j].key)
        }),
    decreases items.len(),
{
    let w = set_in_items(items, key, value);
    if items.len() == 0 {
        assert(w[0] == SpecItem { key, value });
    } else if items[0].key == key {
        assert forall|i: int, j: int| 0 <= i < j < w.len() implies w[i].key != w[j].key by {
            assert(w[0] == SpecItem { key, value });
            if i > 0 {
                assert(w[i] == items[i] && w[j] == items[j]);
            } else {
                assert(w[j] == items[j]);
                assert(items[0].key != items[j].key);
            }
        }
        assert forall|j: int| 0 <= j < w.len() implies (#[trigger] w[j]).key == key || has_key(
            items,
            w[j].key,
        ) by {
            if j > 0 {
                assert(w[j] == items[j]);
                assert(items[j].key == w[j].key);
            }
        }
    } else {
        let d = items.drop_first();
        assert(forall|l: int| 0 <= l < d.len() ==> #[trigger] d[l] == items[l + 1]);
        assert(distinct_keys(d));
        lemma_set_in_items_dedup(d, key, value);
        let r = set_in_items(d, key, value);
        assert forall|i: int, j: int| 0 <= i < j < w.len() implies w[i].key != w[j].key by {
            if i == 0 {
                assert(w[0] == items[0]);
                assert(w[j] == r[j - 1]);
                if r[j - 1].key == key {
                } else {
                    assert(has_key(d, r[j - 1].key));
                    let l = choose|l: int| 0 <= l < d.len() && (#[trigger] d[l]).key == r[j
                        - 1].key;
                    assert(items[l + 1].key == r[j - 1].key);
                }
            } else {
                assert(w[i] == r[i - 1] && w[j] == r[j - 1]);
            }
        }
        assert forall|j: int| 0 <= j < w.len() implies (#[trigger] w[j]).key == key || has_key(
            items,
            w[j].key,
        ) by {
            if j == 0 {
                assert(w[0] == items[0]);
                assert(items[0].key == w[0].key);
            } else {
                assert(w[j] == r[j - 1]);
                if r[j - 1].key != key {
                    assert(has_key(d, r[j - 1].key));
                    let l = choose|l: int| 0 <= l < d.len() && (#[trigger] d[l]).key == r[j
                        - 1].key;
                    assert(items[l + 1].key == w[j].key);
                }
            }
        }
    }
}

/// A write keeps the whole store duplicate-free, and brings in no
/// section name but its own.
pub proof fn lemma_spec_set_dedup(
    m: Seq<SpecSection>,
    section: Seq<char>,
    key: Seq<char>,
    value: Option<Seq<char>>,
)
    requires
        dedup_model(m),
    ensures
        ({
            let w = spec_set(m, section, key, value);
            &&& dedup_model(w)
            &&& forall|j: int|
                0 <= j < w.len() ==> (#[trigger] w[j]).name == section || has_name(m, w[j].name)
        }),
    decreases m.len(),
{
    let w = spec_set(m, section, key, value);
    if m.len() == 0 {
        assert(w[0].items =~= seq![SpecItem { key, value }]);
        assert(distinct_keys(w[0].items));
    } else if m[0].name == section {
        assert(distinct_keys(m[0].items));
        lemma_set_in_items_dedup(m[0].items, key, value);
        assert forall|i: int, j: int| 0 <= i < j < w.len() implies w[i].name != w[j].name by {
            assert(w[0].name == m[0].name);
            if i > 0 {
                assert(w[i] == m[i] && w[j] == m[j]);
            } else {
                assert(w[j] == m[j]);
            }
        }
        assert forall|i: int| 0 <= i < w.len() implies distinct_keys(#[trigger] w[i].items) by {
            if i > 0 {
                assert(w[i] == m[i]);
            }
        }
        assert forall|j: int| 0 <= j < w.len() implies (#[trigger] w[j]).name == section
            || has_name(m, w[j].name) by {
            if j > 0 {
                assert(w[j] == m[j]);
                assert(m[j].name == w[j].name);
            }
        }
    } else {
        let d = m.drop_first();
        assert(forall|l: int| 0 <= l < d.len() ==> #[trigger] d[l] == m[l + 1]);
        assert(dedup_model(d));
        lemma_spec_set_dedup(d, section, key, value);
        let r = spec_set(d, section, key, value);
        assert forall|i: int, j: int| 0 <= i < j < w.len() implies w[i].name != w[j].name by {
            if i == 0 {
                assert(w[0] == m[0]);
                assert(w[j] == r[j - 1]);
                if r[j - 1].name == section {
                } else {
                    assert(has_name(d, r[j - 1].name));
                    let l = choose|l: int| 0 <= l < d.len() && (#[trigger] d[l]).name == r[j
                        - 1].name;
                    assert(m[l + 1].name == r[j - 1].name);
                }
            } else {
                assert(w[i] == r[i - 1] && w[j] == r[j - 1]);
            }
        }
        assert forall|i: int| 0 <= i < w.len() implies distinct_keys(#[trigger] w[i].items) by {
            if i == 0 {
                assert(w[0] == m[0]);
            } else {
                assert(w[i] == r[i - 1]);
            }
        }
        assert forall|j: int| 0 <= j < w.len() implies (#[trigger] w[j]).name == section
            || has_name(m, w[j].name) by {
            if j == 0 {
                assert(w[0] == m[0]);
                assert(m[0].name == w[0].name);
            } else {
                assert(w[j] == r[j - 1]);
                if r[j - 1].name != section {
                    assert(has_name(d, r[j - 1].name));
                    let l = choose|l: int| 0 <= l < d.len() && (#[trigger] d[l]).name == r[j
                        - 1].name;
                    assert(m[l + 1].name == w[j].name);
                }
            }
        }
    }
}

/// In a section with distinct keys, every item under the written key
/// is exactly the written item.
pub proof fn lemma_set_in_items_values(
    items: Seq<SpecItem>,
    key: Seq<char>,
    value: Option<Seq<char>>,
)
    requires
        distinct_keys(items),
    ensures
        forall|j: int|
            0 <= j < set_in_items(items, key, value).len() && (#[trigger] set_in_items(
                items,
                key,
                value,
            )[j]).key == key ==> set_in_items(items, key, value)[j] == (SpecItem { key, value }),
    decreases items.len(),
{
    let w = set_in_items(items, key, value);
    if items.len() == 0 {
        assert(w[0] == SpecItem { key, value });
    } else if items[0].key == key {
        assert forall|j: int| 0 <= j < w.len() && (#[trigger] w[j]).key == key implies w[j]
            == SpecItem { key, value } by {
            if j > 0 {
                assert(w[j] == items[j]);
                assert(items[0].key != items[j].key);
            }
        }
    } else {
        let d = items.drop_first();
        assert(forall|l: int| 0 <= l < d.len() ==> #[trigger] d[l] == items[l + 1]);
        assert(distinct_keys(d));
        lemma_set_in_items_values(d, key, value);
        let r = set_in_items(d, key, value);
        assert forall|j: int| 0 <= j < w.len() && (#[trigger] w[j]).key == key implies w[j]
            == SpecItem { key, value } by {
            if j == 0 {
                assert(w[0] == items[0]);
            } else {
                assert(w[j] == r[j - 1]);
            }
        }
    }
}

// ---------------------------------------------------------------
// The round trip: parsing inverts serialization.
// ---------------------------------------------------------------

/// A serialized line never holds a line break.
pub open spec fn line_free(l: Seq<char>) -> bool {
    forall|i: int| 0 <= i < l.len() ==> #[trigger] l[i] != '\n'
}

pub open spec fn lines_free(lines: Seq<Seq<char>>) -> bool {
    forall|i: int| 0 <= i < lines.len() ==> line_free(#[trigger] lines[i])
}

/// Splitting the joined text of break-free lines gives the lines back.
proof fn lemma_split_join(lines: Seq<Seq<char>>)
    requires
        lines_free(lines),
    ensures
        split_lines(text_of_lines(lines)) == lines,
    decreases lines.len(),
{
    if lines.len() > 0 {
        let l0 = lines[0];
        let rest = lines.drop_first();
        let t = text_of_lines(lines);
        assert(t =~= l0 + seq!['\n'] + text_of_lines(rest));
        assert forall|i: int| 0 <= i < l0.len() implies #[trigger] t[i] != '\n' by {
            assert(t[i] == l0[i]);
        }
        assert(t[l0.len() as int] == '\n');
        lemma_find_char_is(t, '\n', l0.len() as int);
        assert(t.take(l0.len() as int) =~= l0);
        assert(t.skip(l0.len() as int + 1) =~= text_of_lines(rest));
        lemma_split_join(rest);
        assert(split_lines(t) =~= seq![l0] + split_lines(text_of_lines(rest)));
        assert(split_lines(t) =~= lines);
    } else {
        assert(split_lines(text_of_lines(lines)) =~= lines);
    }
}

/// The lines of well-formed items are break-free.
proof fn lemma_item_lines_free(items: Seq<SpecItem>)
    requires
        forall|i: int| 0 <= i < items.len() ==> wf_item(#[trigger] items[i]),
    ensures
        lines_free(item_lines(items)),
        item_lines(items).len() == items.len(),
    decreases items.len(),
{
    if items.len() > 0 {
        assert(wf_item(items[0]));
        let l = item_line(items[0]);
        assert(line_free(l)) by {
            match items[0].value {
                Some(v) => {
                    assert(forall|i: int|
                        0 <= i < items[0].key.len() ==> #[trigger] l[i] == items[0].key[i]);
                    assert(forall|i: int|
                        items[0].key.len() + 1 <= i < l.len() ==> #[trigger] l[i] == v[i
                            - items[0].key.len() - 1]);
                },
                None => {},
            }
        }
        lemma_item_lines_free(items.drop_first());
        assert(forall|i: int|
            0 <= i < items.drop_first().len() ==> #[trigger] items.drop_first()[i] == items[i
                + 1]);
        let all = seq![l] + item_lines(items.drop_first());
        assert forall|i: int| 0 <= i < all.len() implies line_free(#[trigger] all[i]) by {
            if i > 0 {
                assert(all[i] == item_lines(items.drop_first())[i - 1]);
            }
        }
    }
}

/// The serialized lines of a well-formed model are break-free.
proof fn lemma_model_lines_free(m: Seq<SpecSection>)
    requires
        wf_model(m),
    ensures
        lines_free(model_lines(m)),
    decreases m.len(),
{
    if m.len() > 0 {
        assert(wf_section(m[0]));
        lemma_item_lines_free(m[0].items);
        lemma_model_lines_free(m.drop_first());
        assert(wf_model(m.drop_first())) by {
            assert(forall|i: int|
                0 <= i < m.drop_first().len() ==> #[trigger] m.drop_first()[i] == m[i + 1]);
        }
        let hd = header_line(m[0].name);
        assert(line_free(hd)) by {
            assert(forall|i: int|
                1 <= i < hd.len() - 1 ==> #[trigger] hd[i] == m[0].name[i - 1]);
        }
        let all = seq![hd] + item_lines(m[0].items) + model_lines(m.drop_first());
        assert forall|i: int| 0 <= i < all.len() implies line_free(#[trigger] all[i]) by {
            if i == 0 {
            } else if i < 1 + item_lines(m[0].items).len() {
                assert(all[i] == item_lines(m[0].items)[i - 1]);
            } else {
                assert(all[i] == model_lines(m.drop_first())[i - 1 - item_lines(
                    m[0].items,
                ).len()]);
            }
        }
    }
}

/// A header line classifies as a header with the same name.
proof fn lemma_classify_header(name: Seq<char>)
    requires
        wf_name(name),
    ensures
        classify(header_line(name)) == LineKind::Header(name),
{
    let raw = header_line(name);
    assert(raw.len() >= 2);
    assert(raw[0] == '[');
    assert(raw.last() == ']');
    lemma_trim_id(raw);
    assert(raw.subrange(1, raw.len() - 1) =~= name);
    lemma_trim_id(name);
}

/// The line of a well-formed item classifies as that item.
proof fn lemma_classify_item(it: SpecItem)
    requires
        wf_item(it),
    ensures
        classify(item_line(it)) == LineKind::Pair(it),
{
    let l = item_line(it);
    let k = it.key;
    match it.value {
        None => {
            assert(l == k);
            lemma_trim_id(l);
            lemma_find_char_is(l, '=', l.len() as int);
            assert(classify(l) =~~= LineKind::Pair(it));
        },
        Some(v) => {
            assert(forall|i: int| 0 <= i < k.len() ==> #[trigger] l[i] == k[i]);
            assert(l[0] == k[0]);
            if v.len() > 0 {
                assert(l.last() == v.last());
            } else {
                assert(l.last() == '=');
            }
            lemma_trim_id(l);
            assert(l[k.len() as int] == '=');
            lemma_find_char_is(l, '=', k.len() as int);
            assert(l.take(k.len() as int) =~= k);
            lemma_trim_id(k);
            assert(l.skip(k.len() as int + 1) =~= v);
            lemma_trim_id(v);
            assert(classify(l) =~~= LineKind::Pair(it));
        },
    }
}

/// Feeding the lines of a run of fresh-keyed items fills the open
/// section in order.
proof fn lemma_run_items(
    done: Seq<SpecSection>,
    name: Seq<char>,
    acc: Seq<SpecItem>,
    items: Seq<SpecItem>,
    rest: Seq<Seq<char>>,
)
    requires
        forall|l: int| 0 <= l < done.len() ==> (#[trigger] done[l]).name != name,
        forall|l: int| 0 <= l < items.len() ==> wf_item(#[trigger] items[l]),
        distinct_keys(acc + items),
    ensures
        run_parse(
            done.push(SpecSection { name, items: acc }),
            Some(name),
            item_lines(items) + rest,
        ) == run_parse(done.push(SpecSection { name, items: acc + items }), Some(name), rest),
    decreases items.len(),
{
    if items.len() == 0 {
        assert(item_lines(items) + rest =~= rest);
        assert(acc + items =~= acc);
        assert(SpecSection { name, items: acc + items } =~= SpecSection { name, items: acc });
    } else {
        let it = items[0];
        let lines = item_lines(items) + rest;
        assert(lines[0] == item_line(it));
        lemma_classify_item(it);
        assert(lines.drop_first() =~= item_lines(items.drop_first()) + rest);
        let m0 = done.push(SpecSection { name, items: acc });
        assert(m0[done.len() as int].name == name);
        assert(forall|l: int| 0 <= l < done.len() ==> #[trigger] m0[l].name != name) by {
            assert(forall|l: int| 0 <= l < done.len() ==> #[trigger] m0[l] == done[l]);
        }
        lemma_spec_set_at(m0, name, it.key, it.value, done.len() as int);
        assert(forall|l: int| 0 <= l < acc.len() ==> (#[trigger] acc[l]).key != it.key) by {
            assert(forall|l: int| 0 <= l < acc.len() ==> (acc + items)[l] == #[trigger] acc[l]);
            assert((acc + items)[acc.len() as int] == items[0]);
        }
        lemma_set_in_items_append(acc, it.key, it.value);
        assert(SpecItem { key: it.key, value: it.value } =~= it);
        assert(set_in_items(acc, it.key, it.value) =~= acc.push(it));
        assert(spec_set(m0, name, it.key, it.value) =~= done.push(
            SpecSection { name, items: acc.push(it) },
        ));
        assert(acc.push(it) + items.drop_first() =~= acc + items);
        assert(forall|l: int|
            0 <= l < items.drop_first().len() ==> #[trigger] items.drop_first()[l] == items[l
                + 1]);
        lemma_run_items(done, name, acc.push(it), items.drop_first(), rest);
        assert(SpecSection { name, items: acc.push(it) + items.drop_first() } =~= SpecSection {
            name,
            items: acc + items,
        });
    }
}

/// Feeding the lines of a whole duplicate-free model appends its
/// sections unchanged.
proof fn lemma_run_sections(done: Seq<SpecSection>, cur: Option<Seq<char>>, m: Seq<SpecSection>)
    requires
        wf_model(m),
        dedup_model(m),
        forall|i: int, j: int|
            0 <= i < done.len() && 0 <= j < m.len() ==> (#[trigger] done[i]).name != (
            #[trigger] m[j]).name,
    ensures
        run_parse(done, cur, model_lines(m)) == Some(done + m),
    decreases m.len(),
{
    if m.len() == 0 {
        assert(done + m =~= done);
    } else {
        let s0 = m[0];
        assert(wf_section(s0));
        let lines = model_lines(m);
        assert(lines[0] == header_line(s0.name));
        lemma_classify_header(s0.name);
        assert(lines.drop_first() =~= item_lines(s0.items) + model_lines(m.drop_first()));
        assert(forall|l: int| 0 <= l < done.len() ==> (#[trigger] done[l]).name != s0.name);
        lemma_find_section_absent(done, s0.name);
        assert(ensure_section(done, s0.name) == done.push(
            SpecSection { name: s0.name, items: Seq::empty() },
        ));
        assert(distinct_keys(Seq::<SpecItem>::empty() + s0.items)) by {
            assert(Seq::<SpecItem>::empty() + s0.items =~= s0.items);
            assert(distinct_keys(s0.items));
        }
        lemma_run_items(done, s0.name, Seq::empty(), s0.items, model_lines(m.drop_first()));
        assert(SpecSection { name: s0.name, items: Seq::<SpecItem>::empty() + s0.items }
            =~= s0);
        let done2 = done.push(s0);
        let d = m.drop_first();
        assert(forall|l: int| 0 <= l < d.len() ==> #[trigger] d[l] == m[l + 1]);
        assert(wf_model(d));
        assert(dedup_model(d)) by {
            assert(forall|i: int, j: int|
                0 <= i < j < d.len() ==> (#[trigger] d[i]).name != (#[trigger] d[j]).name);
            assert(forall|i: int|
                0 <= i < d.len() ==> distinct_keys(#[trigger] d[i].items));
        }
        assert(forall|i: int, j: int|
            0 <= i < done2.len() && 0 <= j < d.len() ==> (#[trigger] done2[i]).name != (
            #[trigger] d[j]).name) by {
            assert(forall|i: int| 0 <= i < done.len() ==> #[trigger] done2[i] == done[i]);
            assert(done2[done.len() as int] == s0);
        }
        lemma_run_sections(done2, Some(s0.name), d);
        assert(done.push(s0) + d =~= done + m);
    }
}

/// The round trip: a well-formed, duplicate-free model, serialized
/// and parsed back, is reproduced exactly.  Every store this library
/// builds has that shape.
pub proof fn lemma_ini_round_trip(m: Seq<SpecSection>)
    requires
        wf_model(m),
        dedup_model(m),
    ensures
        spec_parse_ini(spec_ini_text(m)) == Some(m),
{
    lemma_model_lines_free(m);
    lemma_split_join(model_lines(m));
    lemma_run_sections(Seq::empty(), None, m);
    assert(Seq::<SpecSection>::empty() + m =~= m);
}

// ---------------------------------------------------------------
// Parsing only ever yields well-formed, duplicate-free stores.
// ---------------------------------------------------------------

/// Split lines never hold a line break.
proof fn lemma_split_lines_free(t: Seq<char>)
    ensures
        lines_free(split_lines(t)),
    decreases t.len(),
{
    if t.len() > 0 {
        let i = find_char(t, '\n');
        lemma_find_char(t, '\n');
        if 0 <= i < t.len() {
            assert(line_free(t.take(i))) by {
                assert(forall|k: int| 0 <= k < i ==> #[trigger] t.take(i)[k] == t[k]);
            }
            lemma_split_lines_free(t.skip(i + 1));
            let all = seq![t.take(i)] + split_lines(t.skip(i + 1));
            assert forall|k: int| 0 <= k < all.len() implies line_free(#[trigger] all[k]) by {
                if k > 0 {
                    assert(all[k] == split_lines(t.skip(i + 1))[k - 1]);
                }
            }
        } else {
            assert(line_free(t));
        }
    }
}

/// A break-free line classifies only into well-formed pieces.
proof fn lemma_classify_wf(raw: Seq<char>)
    requires
        line_free(raw),
    ensures
        classify(raw) matches LineKind::Header(name) ==> wf_name(name),
        classify(raw) matches LineKind::Pair(it) ==> wf_item(it),
{
    let l = trim(raw);
    lemma_trim_shape(raw);
    assert forall|k: int| 0 <= k < l.len() implies #[trigger] l[k] != '\n' by {
        assert(l[k] == raw[k + raw.len() - trim_start(raw).len()]);
    }
    assert(line_free(l));
    if l.len() == 0 {
    } else if l[0] == ';' || l[0] == '#' {
    } else if l.len() >= 2 && l[0] == '[' && l.last() == ']' {
        let mid = l.subrange(1, l.len() - 1);
        let name = trim(mid);
        lemma_trim_shape(mid);
        assert forall|k: int| 0 <= k < name.len() implies #[trigger] name[k] != '\n' by {
            assert(name[k] == mid[k + mid.len() - trim_start(mid).len()]);
            assert(mid[k + mid.len() - trim_start(mid).len()] == l[k + mid.len() - trim_start(
                mid,
            ).len() + 1]);
        }
        assert(wf_name(name));
    } else if l[0] == '[' {
    } else {
        let i = find_char(l, '=');
        lemma_find_char(l, '=');
        if i == 0 {
        } else if i == l.len() {
            assert(wf_key(l));
        } else {
            let kraw = l.take(i);
            assert(kraw.len() > 0);
            assert(kraw[0] == l[0]);
            assert(trim_start(kraw) == kraw);
            let key = trim(kraw);
            assert(key == trim_end(kraw));
            lemma_trim_end_keeps_head(kraw);
            lemma_trim_end_shape(kraw);
            assert forall|k: int| 0 <= k < key.len() implies #[trigger] key[k] != '\n'
                && key[k] != '=' by {
                assert(key[k] == kraw.take(key.len() as int)[k]);
                assert(kraw[k] == l[k]);
            }
            assert(wf_key(key));
            let vraw = l.skip(i + 1);
            let v = trim(vraw);
            lemma_trim_shape(vraw);
            assert forall|k: int| 0 <= k < v.len() implies #[trigger] v[k] != '\n' by {
                assert(v[k] == vraw[k + vraw.len() - trim_start(vraw).len()]);
                assert(vraw[k + vraw.len() - trim_start(vraw).len()] == l[k + vraw.len()
                    - trim_start(vraw).len() + i + 1]);
            }
            assert(wf_value(v));
        }
    }
}

proof fn lemma_run_parse_good(m: Seq<SpecSection>, cur: Option<Seq<char>>, lines: Seq<Seq<char>>)
    requires
        wf_model(m),
        dedup_model(m),
        lines_free(lines),
        cur matches Some(n) ==> wf_name(n),
    ensures
        run_parse(m, cur, lines) matches Some(r) ==> wf_model(r) && dedup_model(r),
    decreases lines.len(),
{
    if lines.len() > 0 {
        lemma_classify_wf(lines[0]);
        let rest = lines.drop_first();
        assert(lines_free(rest)) by {
            assert(forall|k: int| 0 <= k < rest.len() ==> #[trigger] rest[k] == lines[k + 1]);
        }
        match classify(lines[0]) {
            LineKind::Header(name) => {
                let m2 = ensure_section(m, name);
                if find_section(m, name) is Some {
                    lemma_run_parse_good(m, Some(name), rest);
                } else {
                    lemma_find_section_absent(m, name);
                    let fresh = SpecSection { name, items: Seq::empty() };
                    assert(wf_section(fresh));
                    assert(wf_model(m2)) by {
                        assert(forall|i: int| 0 <= i < m.len() ==> #[trigger] m2[i] == m[i]);
                        assert(m2[m.len() as int] == fresh);
                    }
                    assert(dedup_model(m2)) by {
                        assert(forall|i: int| 0 <= i < m.len() ==> #[trigger] m2[i] == m[i]);
                        assert(m2[m.len() as int] == fresh);
                        assert(distinct_keys(fresh.items));
                        assert forall|i: int, j: int| 0 <= i < j < m2.len() implies m2[i].name
                            != m2[j].name by {
                            if j == m.len() {
                                assert(m2[i] == m[i]);
                            }
                        }
                    }
                    lemma_run_parse_good(m2, Some(name), rest);
                }
            },
            LineKind::Pair(it) => match cur {
                None => {},
                Some(name) => {
                    lemma_set_preserves_wf(m, name, it.key, it.value);
                    lemma_spec_set_dedup(m, name, it.key, it.value);
                    lemma_run_parse_good(spec_set(m, name, it.key, it.value), cur, rest);
                },
            },
            LineKind::Blank => {
                lemma_run_parse_good(m, cur, rest);
            },
            LineKind::Bad => {},
        }
    }
}

/// Whatever text parses at all parses to a well-formed,
/// duplicate-free store, so every store that can be loaded also
/// survives a save and a reload.
pub proof fn lemma_parse_wf(t: Seq<char>)
    ensures
        spec_parse_ini(t) matches Some(m) ==> wf_model(m) && dedup_model(m),
{
    lemma_split_lines_free(t);
    assert(wf_model(Seq::<SpecSection>::empty()));
    assert(dedup_model(Seq::<SpecSection>::empty()));
    lemma_run_parse_good(Seq::empty(), None, split_lines(t));
}

// ---------------------------------------------------------------
// Executable search and update on a section list.
// ---------------------------------------------------------------

/// Character-by-character string equality, proved against the views.
pub fn str_eq(a: &str, b: &str) -> (r: bool)
    ensures
        r == (a@ == b@),
{
    let na = a.unicode_len();
    let nb = b.unicode_len();
    if na != nb {
        return false;
    }
    let mut i: usize = 0;
    while i < na
        invariant
            0 <= i <= na,
            na == a@.len(),
            na == b@.len(),
            forall|k: int| 0 <= k < i ==> a@[k] == b@[k],
        decreases na - i,
    {
        if a.get_char(i) != b.get_char(i) {
            return false;
        }
        i = i + 1;
    }
    proof {
        assert(a@ =~= b@);
    }
    true
}

/// The index of the first section of that name.
pub fn find_section_idx(sections: &Vec<Section>, name: &str) -> (r: Option<usize>)
    ensures
        match r {
            Some(i) => {
                &&& i < sections.len()
                &&& sections.deep_view()[i as int].name == name@
                &&& forall|l: int|
                    0 <= l < i ==> #[trigger] sections.deep_view()[l].name != name@
                &&& find_section(sections.deep_view(), name@) == Some(
                    sections.deep_view()[i as int],
                )
            },
            None => {
                &&& find_section(sections.deep_view(), name@) is None
                &&& forall|l: int|
                    0 <= l < sections.len() ==> #[trigger] sections.deep_view()[l].name != name@
            },
        },
{
    let ghost md = sections.deep_view();
    let mut i: usize = 0;
    while i < sections.len()
        invariant
            0 <= i <= sections.len(),
            md == sections.deep_view(),
            md.len() == sections.len(),
            forall|l: int| 0 <= l < i ==> #[trigger] md[l].name != name@,
        decreases sections.len() - i,
    {
        proof {
            assert(md[i as int] == sections[i as int].deep_view());
        }
        if str_eq(sections[i].name.as_str(), name) {
            proof {
                lemma_find_section_prefix(md, name@, i as int);
                assert(md.skip(i as int)[0] == md[i as int]);
                assert(find_section(md.skip(i as int), name@) == Some(md[i as int]));
            }
            return Some(i);
        }
        i = i + 1;
    }
    proof {
        lemma_find_section_prefix(md, name@, md.len() as int);
        assert(md.skip(md.len() as int) =~= Seq::<SpecSection>::empty());
    }
    None
}

/// The index of the first item of that key.
pub fn find_item_idx(items: &Vec<Item>, key: &str) -> (r: Option<usize>)
    ensures
        match r {
            Some(j) => {
                &&& j < items.len()
                &&& items.deep_view()[j as int].key == key@
                &&& forall|l: int| 0 <= l < j ==> #[trigger] items.deep_view()[l].key != key@
                &&& find_item(items.deep_view(), key@) == Some(items.deep_view()[j as int])
            },
            None => {
                &&& find_item(items.deep_view(), key@) is None
                &&& forall|l: int|
                    0 <= l < items.len() ==> #[trigger] items.deep_view()[l].key != key@
            },
        },
{
    let ghost md = items.deep_view();
    let mut j: usize = 0;
    while j < items.len()
        invariant
            0 <= j <= items.len(),
            md == items.deep_view(),
            md.len() == items.len(),
            forall|l: int| 0 <= l < j ==> #[trigger] md[l].key != key@,
        decreases items.len() - j,
    {
        proof {
            assert(md[j as int] == items[j as int].deep_view());
        }
        if str_eq(items[j].key.as_str(), key) {
            proof {
                lemma_find_item_prefix(md, key@, j as int);
                assert(md.skip(j as int)[0] == md[j as int]);
                assert(find_item(md.skip(j as int), key@) == Some(md[j as int]));
            }
            return Some(j);
        }
        j = j + 1;
    }
    proof {
        lemma_find_item_prefix(md, key@, md.len() as int);
        assert(md.skip(md.len() as int) =~= Seq::<SpecItem>::empty());
    }
    None
}

/// Write a value or a cleared slot at the first match, creating the
/// section and key as needed.
pub fn store_put(sections: &mut Vec<Section>, section: &str, key: &str, value: Option<String>)
    ensures
        final(sections).deep_view() == spec_set(
            old(sections).deep_view(),
            section@,
            key@,
            value.deep_view(),
        ),
{
    let ghost md = sections.deep_view();
    let ghost vv = value.deep_view();
    match find_section_idx(sections, section) {
        Some(i) => {
            let mut sec = sections.remove(i);
            let ghost old_items = sec.items.deep_view();
            proof {
                assert(md[i as int] == sec.deep_view());
            }
            match find_item_idx(&sec.items, key) {
                Some(j) => {
                    let mut it = sec.items.remove(j);
                    it.value = value;
                    sec.items.insert(j, it);
                    proof {
                        assert(sec.items.deep_view() =~~= old_items.update(
                            j as int,
                            SpecItem { key: key@, value: vv },
                        ));
                        lemma_set_in_items_at(old_items, key@, vv, j as int);
                    }
                },
                None => {
                    sec.items.push(Item { key: key.to_owned(), value });
                    proof {
                        assert(sec.items.deep_view() =~~= old_items.push(
                            SpecItem { key: key@, value: vv },
                        ));
                        lemma_set_in_items_append(old_items, key@, vv);
                    }
                },
            }
            sections.insert(i, sec);
            proof {
                assert(sections.deep_view() =~~= md.update(
                    i as int,
                    SpecSection {
                        name: md[i as int].name,
                        items: set_in_items(md[i as int].items, key@, vv),
                    },
                ));
                lemma_spec_set_at(md, section@, key@, vv, i as int);
            }
        },
        None => {
            let mut its: Vec<Item> = Vec::new();
            its.push(Item { key: key.to_owned(), value });
            let sec = Section { name: section.to_owned(), items: its };
            sections.push(sec);
            proof {
                assert(sections.deep_view() =~~= md.push(
                    SpecSection {
                        name: section@,
                        items: seq![SpecItem { key: key@, value: vv }],
                    },
                ));
                lemma_spec_set_append(md, section@, key@, vv);
            }
        },
    }
}

// ---------------------------------------------------------------
// The executable serializer.
// ---------------------------------------------------------------

proof fn lemma_text_concat(a: Seq<Seq<char>>, b: Seq<Seq<char>>)
    ensures
        text_of_lines(a + b) == text_of_lines(a) + text_of_lines(b),
    decreases a.len(),
{
    if a.len() == 0 {
        assert(a + b =~= b);
        assert(text_of_lines(a) + text_of_lines(b) =~= text_of_lines(b));
    } else {
        assert((a + b).drop_first() =~= a.drop_first() + b);
        lemma_text_concat(a.drop_first(), b);
        assert(text_of_lines(a + b) =~= text_of_lines(a) + text_of_lines(b));
    }
}

proof fn lemma_text_single(l: Seq<char>)
    ensures
        text_of_lines(seq![l]) == l + seq!['\n'],
{
    let s = seq![l];
    assert(s.len() == 1);
    assert(s[0] == l);
    assert(s.drop_first() =~= Seq::<Seq<char>>::empty());
    assert(text_of_lines(s.drop_first()) == Seq::<char>::empty());
    assert(text_of_lines(s) == s[0] + seq!['\n'] + text_of_lines(s.drop_first()));
    assert(l + seq!['\n'] + Seq::<char>::empty() =~= l + seq!['\n']);
}

proof fn lemma_item_lines_push(items: Seq<SpecItem>, it: SpecItem)
    ensures
        item_lines(items.push(it)) == item_lines(items) + seq![item_line(it)],
    decreases items.len(),
{
    if items.len() == 0 {
        let p = items.push(it);
        assert(p.len() == 1);
        assert(p[0] == it);
        assert(p.drop_first() =~= Seq::<SpecItem>::empty());
        assert(item_lines(p.drop_first()) == Seq::<Seq<char>>::empty());
        assert(item_lines(p) == seq![item_line(it)] + item_lines(p.drop_first()));
        assert(seq![item_line(it)] + Seq::<Seq<char>>::empty() =~= seq![item_line(it)]);
        assert(item_lines(items) == Seq::<Seq<char>>::empty());
        assert(item_lines(items) + seq![item_line(it)] =~= seq![item_line(it)]);
    } else {
        assert(items.push(it)[0] == items[0]);
        assert(items.push(it).drop_first() =~= items.drop_first().push(it));
        lemma_item_lines_push(items.drop_first(), it);
        assert(item_lines(items.push(it)) =~= item_lines(items) + seq![item_line(it)]);
    }
}

proof fn lemma_model_lines_push(m: Seq<SpecSection>, s: SpecSection)
    ensures
        model_lines(m.push(s)) == model_lines(m) + seq![header_line(s.name)] + item_lines(
            s.items,
        ),
    decreases m.len(),
{
    if m.len() == 0 {
        assert(m.push(s)[0] == s);
        assert(m.push(s).drop_first() =~= Seq::<SpecSection>::empty());
        assert(model_lines(Seq::<SpecSection>::empty()) =~= Seq::<Seq<char>>::empty());
        assert(model_lines(m.push(s)) =~= seq![header_line(s.name)] + item_lines(s.items)
            + Seq::<Seq<char>>::empty());
        assert(model_lines(m.push(s)) =~= model_lines(m) + seq![header_line(s.name)]
            + item_lines(s.items));
    } else {
        assert(m.push(s)[0] == m[0]);
        assert(m.push(s).drop_first() =~= m.drop_first().push(s));
        lemma_model_lines_push(m.drop_first(), s);
        assert(model_lines(m.push(s)) =~= model_lines(m) + seq![header_line(s.name)]
            + item_lines(s.items));
    }
}

/// Serialize sections to the configuration file text.
pub fn to_ini_text(sections: &Vec<Section>) -> (r: String)
    ensures
        r@ == spec_ini_text(sections.deep_view()),
{
    proof {
        reveal_strlit("[");
        reveal_strlit("]");
        reveal_strlit("=");
        reveal_strlit("\n");
    }
    let ghost md = sections.deep_view();
    let mut out = String::new();
    let mut i: usize = 0;
    proof {
        assert(md.take(0) =~= Seq::<SpecSection>::empty());
        assert(out@ =~= text_of_lines(model_lines(md.take(0))));
    }
    while i < sections.len()
        invariant
            0 <= i <= sections.len(),
            md == sections.deep_view(),
            md.len() == sections.len(),
            out@ == text_of_lines(model_lines(md.take(i as int))),
        decreases sections.len() - i,
    {
        proof {
            assert(md[i as int] == sections[i as int].deep_view());
        }
        let sec = &sections[i];
        out.append("[");
        out.append(sec.name.as_str());
        out.append("]");
        out.append("\n");
        let ghost base = text_of_lines(model_lines(md.take(i as int)));
        proof {
            reveal_strlit("[");
            reveal_strlit("]");
            reveal_strlit("\n");
            assert(out@ =~= base + header_line(sec.name@) + seq!['\n']);
        }
        let ghost sitems = sec@.items;
        let mut j: usize = 0;
        proof {
            assert(sitems.take(0) =~= Seq::<SpecItem>::empty());
            lemma_text_single(header_line(sec.name@));
            assert(seq![header_line(sec.name@)] + item_lines(sitems.take(0)) =~= seq![
                header_line(sec.name@),
            ]);
            assert(out@ =~= base + text_of_lines(seq![header_line(sec.name@)] + item_lines(
                sitems.take(0),
            )));
        }
        while j < sec.items.len()
            invariant
                0 <= j <= sec.items.len(),
                sitems == sec@.items,
                sitems.len() == sec.items.len(),
                out@ == base + text_of_lines(
                    seq![header_line(sec.name@)] + item_lines(sitems.take(j as int)),
                ),
            decreases sec.items.len() - j,
        {
            proof {
                assert(sitems[j as int] == sec.items[j as int]@);
            }
            let it = &sec.items[j];
            let ghost before = out@;
            out.append(it.key.as_str());
            match &it.value {
                Some(v) => {
                    out.append("=");
                    out.append(v.as_str());
                },
                None => {},
            }
            out.append("\n");
            proof {
                reveal_strlit("=");
                reveal_strlit("\n");
                assert(out@ =~= before + item_line(sitems[j as int]) + seq!['\n']);
                assert(sitems.take(j + 1) =~= sitems.take(j as int).push(sitems[j as int]));
                lemma_item_lines_push(sitems.take(j as int), sitems[j as int]);
                let hd = seq![header_line(sec.name@)];
                lemma_text_concat(hd + item_lines(sitems.take(j as int)), seq![item_line(
                    sitems[j as int],
                )]);
                assert(hd + item_lines(sitems.take(j + 1)) =~= (hd + item_lines(sitems.take(
                    j as int,
                ))) + seq![item_line(sitems[j as int])]);
                lemma_text_single(item_line(sitems[j as int]));
                assert(out@ =~= base + text_of_lines(hd + item_lines(sitems.take(j + 1))));
            }
            j = j + 1;
        }
        proof {
            assert(sitems.take(sitems.len() as int) =~= sitems);
            assert(md.take(i + 1) =~= md.take(i as int).push(md[i as int]));
            lemma_model_lines_push(md.take(i as int), md[i as int]);
            lemma_text_concat(model_lines(md.take(i as int)), seq![header_line(sec.name@)]
                + item_lines(sitems));
            assert(model_lines(md.take(i + 1)) =~= model_lines(md.take(i as int)) + (seq![
                header_line(sec.name@),
            ] + item_lines(sitems)));
            assert(out@ =~= text_of_lines(model_lines(md.take(i + 1))));
        }
        i = i + 1;
    }
    proof {
        assert(md.take(md.len() as int) =~= md);
    }
    out
}

// ---------------------------------------------------------------
// The executable parser.
// ---------------------------------------------------------------

proof fn lemma_trim_start_at(s: Seq<char>, i: int)
    requires
        0 <= i <= s.len(),
        forall|k: int| 0 <= k < i ==> is_ws(#[trigger] s[k]),
        i < s.len() ==> !is_ws(s[i]),
    ensures
        trim_start(s) == s.skip(i),
    decreases i,
{
    if i == 0 {
        assert(s.skip(0) =~= s);
    } else {
        assert(is_ws(s[0]));
        let d = s.drop_first();
        assert forall|k: int| 0 <= k < i - 1 implies is_ws(#[trigger] d[k]) by {
            assert(d[k] == s[k + 1]);
        }
        assert(i - 1 < d.len() ==> !is_ws(d[i - 1]));
        lemma_trim_start_at(d, i - 1);
        assert(d.skip(i - 1) =~= s.skip(i));
    }
}

proof fn lemma_trim_end_at(s: Seq<char>, j: int)
    requires
        0 <= j <= s.len(),
        forall|k: int| j <= k < s.len() ==> is_ws(#[trigger] s[k]),
        j > 0 ==> !is_ws(s[j - 1]),
    ensures
        trim_end(s) == s.take(j),
    decreases s.len(),
{
    if j == s.len() {
        assert(s.take(j) =~= s);
    } else {
        assert(is_ws(s.last()));
        let d = s.drop_last();
        assert(d =~= s.take(s.len() - 1));
        lemma_trim_end_at(d, j);
        assert(d.take(j) =~= s.take(j));
    }
}

/// Trim the reader's whitespace from both ends.
fn trim_str(s: &str) -> (r: String)
    ensures
        r@ == trim(s@),
{
    let n = s.unicode_len();
    let mut a: usize = 0;
    while a < n && (s.get_char(a) == ' ' || s.get_char(a) == '\t')
        invariant
            0 <= a <= n,
            n == s@.len(),
            forall|k: int| 0 <= k < a ==> is_ws(#[trigger] s@[k]),
        decreases n - a,
    {
        a = a + 1;
    }
    proof {
        lemma_trim_start_at(s@, a as int);
    }
    if a == n {
        proof {
            assert(s@.skip(n as int) =~= Seq::<char>::empty());
            assert(trim(s@) =~= Seq::<char>::empty());
        }
        return String::new();
    }
    proof {
        assert(!is_ws(s@[a as int]));
    }
    let mut b: usize = n;
    while b > a && (s.get_char(b - 1) == ' ' || s.get_char(b - 1) == '\t')
        invariant
            a < n,
            a <= b <= n,
            n == s@.len(),
            forall|k: int| b <= k < n ==> is_ws(#[trigger] s@[k]),
        decreases b,
    {
        b = b - 1;
    }
    proof {
        assert(b > a) by {
            if b == a {
                assert(is_ws(s@[a as int]));
            }
        }
        assert(!is_ws(s@[b - 1]));
        let ts = s@.skip(a as int);
        assert forall|k: int| b - a <= k < ts.len() implies is_ws(#[trigger] ts[k]) by {
            assert(ts[k] == s@[a + k]);
        }
        assert(ts[b - a - 1] == s@[b - 1]);
        lemma_trim_end_at(ts, b - a);
        assert(ts.take(b - a) =~= s@.subrange(a as int, b as int));
    }
    s.substring_char(a, b).to_owned()
}

/// Split text into lines at line breaks, as `split_lines` does.
fn split_text(s: &str) -> (r: Vec<String>)
    ensures
        r.deep_view() == split_lines(s@),
{
    let n = s.unicode_len();
    let mut lines: Vec<String> = Vec::new();
    let mut start: usize = 0;
    let mut i: usize = 0;
    proof {
        assert(lines.deep_view() =~= Seq::<Seq<char>>::empty());
        assert(s@.skip(0) =~= s@);
        assert(lines.deep_view() + split_lines(s@.skip(0)) =~= split_lines(s@));
    }
    while i < n
        invariant
            0 <= start <= i <= n,
            n == s@.len(),
            lines.deep_view() + split_lines(s@.skip(start as int)) == split_lines(s@),
            forall|k: int| start <= k < i ==> #[trigger] s@[k] != '\n',
        decreases n - i,
    {
        let c = s.get_char(i);
        if c == '\n' {
            let line = s.substring_char(start, i).to_owned();
            let ghost old_lines = lines.deep_view();
            lines.push(line);
            proof {
                let rem = s@.skip(start as int);
                assert forall|k: int| 0 <= k < i - start implies #[trigger] rem[k] != '\n' by {
                    assert(rem[k] == s@[start + k]);
                }
                assert(rem[i - start] == '\n');
                lemma_find_char_is(rem, '\n', i - start);
                assert(rem.take(i - start) =~= line@);
                assert(rem.skip(i - start + 1) =~= s@.skip(i + 1));
                assert(split_lines(rem) =~= seq![line@] + split_lines(s@.skip(i + 1)));
                assert(lines.deep_view() =~= old_lines.push(line@));
                assert(lines.deep_view() + split_lines(s@.skip(i + 1)) =~= split_lines(s@));
            }
            start = i + 1;
        }
        i = i + 1;
    }
    if start < n {
        let line = s.substring_char(start, n).to_owned();
        let ghost old_lines = lines.deep_view();
        lines.push(line);
        proof {
            let rem = s@.skip(start as int);
            assert forall|k: int| 0 <= k < rem.len() implies #[trigger] rem[k] != '\n' by {
                assert(rem[k] == s@[start + k]);
            }
            lemma_find_char(rem, '\n');
            assert(find_char(rem, '\n') == rem.len());
            assert(rem =~= line@);
            assert(split_lines(rem) =~= seq![line@]);
            assert(lines.deep_view() =~= old_lines.push(line@));
            assert(lines.deep_view() =~= old_lines + seq![line@]);
        }
    } else {
        proof {
            assert(s@.skip(start as int) =~= Seq::<char>::empty());
            assert(split_lines(s@.skip(start as int)) =~= Seq::<Seq<char>>::empty());
            assert(lines.deep_view() + split_lines(s@.skip(start as int)) =~= lines.deep_view());
        }
    }
    lines
}

/// One classified line, with its trimmed pieces.
enum RawLine {
    HeaderOf(String),
    PairOf(String, Option<String>),
    BlankLine,
    BadLine,
}

/// Classify one raw line as the spec grammar does.
fn classify_line(raw: &str) -> (r: RawLine)
    ensures
        match r {
            RawLine::HeaderOf(name) => classify(raw@) == LineKind::Header(name@),
            RawLine::PairOf(k, v) => classify(raw@) == LineKind::Pair(
                SpecItem { key: k@, value: v.deep_view() },
            ),
            RawLine::BlankLine => classify(raw@) is Blank,
            RawLine::BadLine => classify(raw@) is Bad,
        },
{
    let t = trim_str(raw);
    let n = t.as_str().unicode_len();
    if n == 0 {
        return RawLine::BlankLine;
    }
    let c0 = t.as_str().get_char(0);
    if c0 == ';' || c0 == '#' {
        return RawLine::BlankLine;
    }
    if n >= 2 && c0 == '[' && t.as_str().get_char(n - 1) == ']' {
        let name = trim_str(t.as_str().substring_char(1, n - 1));
        proof {
            assert(t@.last() == ']');
            assert(t@.subrange(1, t@.len() - 1) =~= trim(raw@).subrange(
                1,
                trim(raw@).len() - 1,
            ));
            assert(classify(raw@) == LineKind::Header(name@));
        }
        return RawLine::HeaderOf(name);
    }
    if c0 == '[' {
        return RawLine::BadLine;
    }
    let mut p: usize = 0;
    while p < n && t.as_str().get_char(p) != '='
        invariant
            0 <= p <= n,
            n == t@.len(),
            t@ == trim(raw@),
            forall|k: int| 0 <= k < p ==> #[trigger] t@[k] != '=',
        decreases n - p,
    {
        p = p + 1;
    }
    proof {
        lemma_find_char_is(t@, '=', p as int);
    }
    if p == 0 {
        proof {
            assert(classify(raw@) is Bad);
        }
        return RawLine::BadLine;
    }
    if p == n {
        proof {
            assert(classify(raw@) =~~= LineKind::Pair(SpecItem { key: t@, value: None }));
        }
        return RawLine::PairOf(t, None);
    }
    let key = trim_str(t.as_str().substring_char(0, p));
    let value = trim_str(t.as_str().substring_char(p + 1, n));
    proof {
        assert(t@.subrange(0, p as int) =~= t@.take(p as int));
        assert(t@.subrange(p as int + 1, n as int) =~= t@.skip(p as int + 1));
        assert(classify(raw@) =~~= LineKind::Pair(
            SpecItem { key: key@, value: Some(value@) },
        ));
    }
    RawLine::PairOf(key, Some(value))
}

/// Parse a configuration file text.  `Ok` exactly on the texts the
/// dialect accepts, with the duplicate-free sections they denote;
/// `Err` on a rejected line or on an item standing before the first
/// header.
pub fn parse_ini(s: &str) -> (r: Result<Vec<Section>, String>)
    ensures
        match r {
            Ok(v) => spec_parse_ini(s@) == Some(v.deep_view()),
            Err(_) => spec_parse_ini(s@) is None,
        },
{
    let lines = split_text(s);
    let ghost all = lines.deep_view();
    let mut sections: Vec<Section> = Vec::new();
    let mut cur_name: Option<String> = None;
    let mut j: usize = 0;
    proof {
        assert(all.skip(0) =~= all);
        assert(sections.deep_view() =~= Seq::<SpecSection>::empty());
    }
    while j < lines.len()
        invariant
            0 <= j <= lines.len(),
            all == lines.deep_view(),
            all.len() == lines.len(),
            run_parse(sections.deep_view(), cur_name.deep_view(), all.skip(j as int))
                == spec_parse_ini(s@),
        decreases lines.len() - j,
    {
        proof {
            assert(all[j as int] == lines[j as int]@);
            assert(all.skip(j as int)[0] == all[j as int]);
            assert(all.skip(j as int).drop_first() =~= all.skip(j + 1));
        }
        match classify_line(lines[j].as_str()) {
            RawLine::BlankLine => {},
            RawLine::BadLine => {
                return Err("Invalid line in config file".to_owned());
            },
            RawLine::HeaderOf(name) => {
                let ghost old_m = sections.deep_view();
                match find_section_idx(&sections, name.as_str()) {
                    Some(_) => {
                        proof {
                            assert(ensure_section(old_m, name@) == old_m);
                        }
                    },
                    None => {
                        let fresh: Vec<Item> = Vec::new();
                        proof {
                            assert(fresh.deep_view() =~= Seq::<SpecItem>::empty());
                        }
                        sections.push(Section { name: name.clone(), items: fresh });
                        proof {
                            assert(sections.deep_view() =~~= old_m.push(
                                SpecSection { name: name@, items: Seq::empty() },
                            ));
                        }
                    },
                }
                cur_name = Some(name);
            },
            RawLine::PairOf(key, value) => {
                match &cur_name {
                    None => {
                        return Err("Key before first section header".to_owned());
                    },
                    Some(nm) => {
                        proof {
                            assert(cur_name.deep_view() == Some(nm@));
                        }
                        store_put(&mut sections, nm.as_str(), key.as_str(), value);
                    },
                }
            },
        }
        j = j + 1;
    }
    proof {
        assert(all.skip(all.len() as int) =~= Seq::<Seq<char>>::empty());
    }
    Ok(sections)
}

} // verus!
