//! The configuration store.
//!
//! A flat section/key/value map held in memory, read from and written
//! to the INI-style file format of `crate::ini`.  Lookups and updates
//! use the first matching section and the first matching key within
//! it.  Removing a key clears its value but keeps the key, as the
//! file format records.  All file I/O stays with the caller: the
//! store takes file text in and hands file text out.

use vstd::prelude::*;

use crate::BuildMode;
use crate::ini::Item;
use crate::ini::Section;
use crate::ini::SpecItem;
use crate::ini::SpecSection;
use crate::ini::dedup_model;
use crate::ini::distinct_keys;
use crate::ini::find_item;
use crate::ini::find_item_idx;
use crate::ini::find_section;
use crate::ini::find_section_idx;
use crate::ini::lemma_set_preserves_wf;
use crate::ini::lemma_spec_set_dedup;
use crate::ini::lemma_set_in_items_values;
use crate::ini::parse_ini;
use crate::ini::set_in_items;
use crate::ini::spec_get;
use crate::ini::spec_ini_text;
use crate::ini::spec_parse_ini;
use crate::ini::spec_set;
use crate::ini::store_put;
use crate::ini::to_ini_text;
use crate::ini::wf_key;
use crate::ini::wf_model;
use crate::ini::wf_name;
use crate::ini::wf_value;
use crate::num::dec_digits;
use crate::num::spec_parse_bool;
use crate::num::spec_parse_i64;

verus! {

// ---------------------------------------------------------------
// Laws of the map: what a write leaves behind.
// ---------------------------------------------------------------

proof fn lemma_items_get_after_set(items: Seq<SpecItem>, key: Seq<char>, value: Option<Seq<char>>)
    ensures
        find_item(set_in_items(items, key, value), key) == Some(SpecItem { key, value }),
    decreases items.len(),
{
    let w = set_in_items(items, key, value);
    if items.len() == 0 {
        assert(w[0] == SpecItem { key, value });
    } else if items[0].key == key {
        assert(w[0] == SpecItem { key, value });
    } else {
        lemma_items_get_after_set(items.drop_first(), key, value);
        assert(w[0] == items[0]);
        assert(w.drop_first() =~= set_in_items(items.drop_first(), key, value));
    }
}

proof fn lemma_items_set_frame(
    items: Seq<SpecItem>,
    key: Seq<char>,
    value: Option<Seq<char>>,
    other: Seq<char>,
)
    requires
        other != key,
    ensures
        find_item(set_in_items(items, key, value), other) == find_item(items, other),
    decreases items.len(),
{
    let w = set_in_items(items, key, value);
    if items.len() == 0 {
        assert(w[0] == SpecItem { key, value });
        assert(w.drop_first() =~= Seq::<SpecItem>::empty());
        assert(find_item(w.drop_first(), other) is None);
        assert(find_item(w, other) is None);
        assert(find_item(items, other) is None);
    } else if items[0].key == key {
        assert(w[0] == SpecItem { key, value });
        assert(w.drop_first() =~= items.drop_first());
        assert(find_item(w, other) == find_item(items.drop_first(), other));
        assert(find_item(items, other) == find_item(items.drop_first(), other));
    } else {
        lemma_items_set_frame(items.drop_first(), key, value, other);
        assert(w[0] == items[0]);
        assert(w.drop_first() =~= set_in_items(items.drop_first(), key, value));
        if items[0].key == other {
            assert(find_item(w, other) == Some(items[0]));
            assert(find_item(items, other) == Some(items[0]));
        } else {
            assert(find_item(w, other) == find_item(w.drop_first(), other));
            assert(find_item(items, other) == find_item(items.drop_first(), other));
        }
    }
}

/// Setting a key stores exactly that value: reading the same section
/// and key back yields it.
pub proof fn lemma_get_after_set(
    m: Seq<SpecSection>,
    section: Seq<char>,
    key: Seq<char>,
    value: Option<Seq<char>>,
)
    ensures
        spec_get(spec_set(m, section, key, value), section, key) == value,
    decreases m.len(),
{
    let w = spec_set(m, section, key, value);
    if m.len() == 0 {
        assert(w[0] == SpecSection { name: section, items: seq![SpecItem { key, value }] });
        assert(find_section(w, section) == Some(w[0]));
        assert(w[0].items[0] == SpecItem { key, value });
    } else if m[0].name == section {
        let upd = SpecSection { name: m[0].name, items: set_in_items(m[0].items, key, value) };
        assert(w[0] == upd);
        assert(find_section(w, section) == Some(upd));
        lemma_items_get_after_set(m[0].items, key, value);
    } else {
        lemma_get_after_set(m.drop_first(), section, key, value);
        assert(w[0] == m[0]);
        assert(w.drop_first() =~= spec_set(m.drop_first(), section, key, value));
    }
}

/// Setting one key leaves every other section/key pair as it was.
pub proof fn lemma_set_frame(
    m: Seq<SpecSection>,
    section: Seq<char>,
    key: Seq<char>,
    value: Option<Seq<char>>,
    section2: Seq<char>,
    key2: Seq<char>,
)
    requires
        section2 != section || key2 != key,
    ensures
        spec_get(spec_set(m, section, key, value), section2, key2) == spec_get(m, section2, key2),
    decreases m.len(),
{
    let w = spec_set(m, section, key, value);
    if m.len() == 0 {
        assert(w[0] == SpecSection { name: section, items: seq![SpecItem { key, value }] });
        assert(w.drop_first() =~= Seq::<SpecSection>::empty());
        if section2 == section {
            assert(find_section(w, section2) == Some(w[0]));
            assert(w[0].items[0].key == key);
            assert(w[0].items.drop_first() =~= Seq::<SpecItem>::empty());
            assert(find_item(w[0].items.drop_first(), key2) is None);
            assert(find_item(w[0].items, key2) is None);
        } else {
            assert(find_section(w.drop_first(), section2) is None);
            assert(find_section(w, section2) is None);
        }
    } else if m[0].name == section {
        let upd = SpecSection { name: m[0].name, items: set_in_items(m[0].items, key, value) };
        assert(w[0] == upd);
        assert(w.drop_first() =~= m.drop_first());
        if section2 == section {
            assert(find_section(w, section2) == Some(upd));
            assert(find_section(m, section2) == Some(m[0]));
            lemma_items_set_frame(m[0].items, key, value, key2);
        } else {
            assert(find_section(w, section2) == find_section(m.drop_first(), section2));
        }
    } else {
        lemma_set_frame(m.drop_first(), section, key, value, section2, key2);
        assert(w[0] == m[0]);
        assert(w.drop_first() =~= spec_set(m.drop_first(), section, key, value));
        if section2 == m[0].name {
            assert(find_section(w, section2) == Some(m[0]));
            assert(find_section(m, section2) == Some(m[0]));
        }
    }
}

/// Serializing a well-formed, duplicate-free store and parsing the
/// text back yields the same store: a save followed by a fresh load
/// loses nothing.  Every store this library builds has that shape.
pub proof fn lemma_save_load_round_trip(m: Seq<SpecSection>)
    requires
        wf_model(m),
        dedup_model(m),
    ensures
        spec_parse_ini(spec_ini_text(m)) == Some(m),
{
    crate::ini::lemma_ini_round_trip(m);
}

/// Clearing a key makes it invisible: a read after a removal finds
/// nothing, and the typed readers fall back to their defaults.
pub proof fn lemma_get_after_remove(
    m: Seq<SpecSection>,
    section: Seq<char>,
    key: Seq<char>,
    int_default: i64,
    bool_default: bool,
)
    ensures
        spec_get(spec_set(m, section, key, None), section, key) is None,
        spec_get_int(spec_set(m, section, key, None), section, key, int_default) == int_default,
        spec_get_bool(spec_set(m, section, key, None), section, key, bool_default)
            == bool_default,
{
    lemma_get_after_set(m, section, key, None);
}

proof fn lemma_get_all_len(m: Seq<SpecSection>)
    ensures
        spec_get_all(m).len() == m.len(),
    decreases m.len(),
{
    if m.len() > 0 {
        lemma_get_all_len(m.drop_last());
    }
}

proof fn lemma_get_all_at(m: Seq<SpecSection>, i: int)
    requires
        0 <= i < m.len(),
    ensures
        spec_get_all(m).len() == m.len(),
        spec_get_all(m)[i] == (SpecSection {
            name: m[i].name,
            items: visible_items(m[i].items),
        }),
    decreases m.len(),
{
    lemma_get_all_len(m);
    lemma_get_all_len(m.drop_last());
    if i == m.len() - 1 {
        assert(m.last() == m[i]);
    } else {
        assert(m.drop_last()[i] == m[i]);
        lemma_get_all_at(m.drop_last(), i);
        assert(spec_get_all(m)[i] == spec_get_all(m.drop_last())[i]);
    }
}

proof fn lemma_visible_no_key(items: Seq<SpecItem>, key: Seq<char>)
    requires
        forall|l: int|
            0 <= l < items.len() && (#[trigger] items[l]).key == key ==> items[l].value is None,
    ensures
        forall|j: int|
            0 <= j < visible_items(items).len() ==> (#[trigger] visible_items(items)[j]).key
                != key,
    decreases items.len(),
{
    if items.len() > 0 {
        let d = items.drop_last();
        assert(forall|l: int| 0 <= l < d.len() ==> #[trigger] d[l] == items[l]);
        lemma_visible_no_key(d, key);
        let v = visible_items(items);
        let vd = visible_items(d);
        if items.last().value is Some {
            assert(items.last().key != key) by {
                if items.last().key == key {
                    assert(items[items.len() - 1].value is None);
                }
            }
            assert forall|j: int| 0 <= j < v.len() implies (#[trigger] v[j]).key != key by {
                if j < vd.len() {
                    assert(v[j] == vd[j]);
                } else {
                    assert(v[j] == items.last());
                }
            }
        }
    }
}

proof fn lemma_remove_sections(m: Seq<SpecSection>, section: Seq<char>, key: Seq<char>)
    requires
        dedup_model(m),
    ensures
        ({
            let w = spec_set(m, section, key, None);
            forall|i: int, l: int|
                0 <= i < w.len() && w[i].name == section && 0 <= l < w[i].items.len() && (
                #[trigger] w[i].items[l]).key == key ==> w[i].items[l].value is None
        }),
    decreases m.len(),
{
    let w = spec_set(m, section, key, None);
    if m.len() == 0 {
        assert(w[0].items[0] == SpecItem { key, value: None });
        assert forall|i: int, l: int|
            0 <= i < w.len() && w[i].name == section && 0 <= l < w[i].items.len() && (
            #[trigger] w[i].items[l]).key == key implies w[i].items[l].value is None by {
            assert(w[i].items =~= seq![SpecItem { key, value: None }]);
        }
    } else if m[0].name == section {
        assert(distinct_keys(m[0].items));
        lemma_set_in_items_values(m[0].items, key, None);
        assert forall|i: int, l: int|
            0 <= i < w.len() && w[i].name == section && 0 <= l < w[i].items.len() && (
            #[trigger] w[i].items[l]).key == key implies w[i].items[l].value is None by {
            if i == 0 {
                assert(w[0].items == set_in_items(m[0].items, key, None));
                assert(w[0].items[l] == SpecItem { key, value: None });
            } else {
                assert(w[i] == m[i]);
                assert(m[i].name != m[0].name);
            }
        }
    } else {
        let d = m.drop_first();
        assert(forall|l: int| 0 <= l < d.len() ==> #[trigger] d[l] == m[l + 1]);
        assert(dedup_model(d)) by {
            assert(forall|i: int, j: int|
                0 <= i < j < d.len() ==> (#[trigger] d[i]).name != (#[trigger] d[j]).name);
            assert(forall|i: int| 0 <= i < d.len() ==> distinct_keys(#[trigger] d[i].items));
        }
        lemma_remove_sections(d, section, key);
        let r = spec_set(d, section, key, None);
        assert forall|i: int, l: int|
            0 <= i < w.len() && w[i].name == section && 0 <= l < w[i].items.len() && (
            #[trigger] w[i].items[l]).key == key implies w[i].items[l].value is None by {
            if i == 0 {
                assert(w[0] == m[0]);
            } else {
                assert(w[i] == r[i - 1]);
                assert(r[i - 1].items[l] == w[i].items[l]);
            }
        }
    }
}

/// After a removal the snapshot agrees with `get`: no section of
/// that name in the `get_all` view still shows the key.  This holds
/// of every duplicate-free store, and every store this library
/// builds — opened fresh, loaded, or written through its setters —
/// is duplicate-free.
pub proof fn lemma_remove_omits_from_snapshot(
    m: Seq<SpecSection>,
    section: Seq<char>,
    key: Seq<char>,
)
    requires
        dedup_model(m),
    ensures
        ({
            let snap = spec_get_all(spec_set(m, section, key, None));
            forall|i: int, l: int|
                0 <= i < snap.len() && snap[i].name == section && 0 <= l
                    < snap[i].items.len() ==> (#[trigger] snap[i].items[l]).key != key
        }),
{
    let w = spec_set(m, section, key, None);
    let snap = spec_get_all(w);
    lemma_remove_sections(m, section, key);
    lemma_get_all_len(w);
    assert forall|i: int, l: int|
        0 <= i < snap.len() && snap[i].name == section && 0 <= l < snap[i].items.len() implies (
    #[trigger] snap[i].items[l]).key != key by {
        lemma_get_all_at(w, i);
        assert(snap[i].name == w[i].name);
        assert(snap[i].items == visible_items(w[i].items));
        assert forall|l2: int|
            0 <= l2 < w[i].items.len() && (#[trigger] w[i].items[l2]).key == key implies w[
            i].items[l2].value is None by {}
        lemma_visible_no_key(w[i].items, key);
    }
}

/// Round trip for integers: a value stored in its canonical decimal
/// form reads back exactly, whatever default the reader supplies.
pub proof fn lemma_int_round_trip(
    m: Seq<SpecSection>,
    section: Seq<char>,
    key: Seq<char>,
    value: i64,
    default: i64,
)
    ensures
        spec_get_int(
            spec_set(m, section, key, Some(crate::num::spec_i64_string(value as int))),
            section,
            key,
            default,
        ) == value,
{
    lemma_get_after_set(m, section, key, Some(crate::num::spec_i64_string(value as int)));
    crate::num::lemma_i64_round_trip(value);
}

/// Round trip for booleans: a value stored in its canonical form
/// reads back exactly, whatever default the reader supplies.
pub proof fn lemma_bool_round_trip(
    m: Seq<SpecSection>,
    section: Seq<char>,
    key: Seq<char>,
    value: bool,
    default: bool,
)
    ensures
        value ==> spec_get_bool(
            spec_set(m, section, key, Some("true"@)),
            section,
            key,
            default,
        ) == value,
        !value ==> spec_get_bool(
            spec_set(m, section, key, Some("false"@)),
            section,
            key,
            default,
        ) == value,
{
    reveal_strlit("true");
    reveal_strlit("false");
    if value {
        lemma_get_after_set(m, section, key, Some("true"@));
    } else {
        lemma_get_after_set(m, section, key, Some("false"@));
        assert("false"@.len() == 5);
        assert("true"@.len() == 4);
        assert("false"@ != "true"@);
    }
}

/// The port a fresh store reports.  A development store with no port
/// on record always holds the fixed development port; a production
/// store holds the base port plus its entropy offset, so two opens
/// with different entropy may disagree until one is persisted.
pub proof fn lemma_fresh_port(m: Seq<SpecSection>, mode: BuildMode, entropy: u64)
    requires
        spec_get(m, "app"@, "port"@) is None,
    ensures
        spec_get(with_port(m, mode, entropy), "app"@, "port"@) == Some(
            dec_digits(spec_chosen_port(mode, entropy) as nat),
        ),
        mode is Development ==> spec_get_int(with_port(m, mode, entropy), "app"@, "port"@, 8000)
            == 8000,
{
    lemma_get_after_set(
        m,
        "app"@,
        "port"@,
        Some(dec_digits(spec_chosen_port(mode, entropy) as nat)),
    );
    if mode is Development {
        crate::num::lemma_dec_digits_val(8000);
        assert(dec_digits(8000)[0] != '-' && dec_digits(8000)[0] != '+') by {
            crate::num::lemma_dec_digits_val(8000);
            assert(crate::num::is_digit(dec_digits(8000)[0]));
        }
        assert(spec_parse_i64(dec_digits(8000)) == Some(8000i64));
    }
}

/// Every store that can be loaded at all round trips: whatever text
/// parses, serializing the parsed store and parsing that text again
/// reproduces the store exactly.
pub proof fn lemma_loaded_store_round_trips(t: Seq<char>)
    ensures
        spec_parse_ini(t) matches Some(m) ==> spec_parse_ini(spec_ini_text(m)) == Some(m),
{
    crate::ini::lemma_parse_wf(t);
    match spec_parse_ini(t) {
        Some(m) => {
            lemma_save_load_round_trip(m);
        },
        None => {},
    }
}

/// A fresh store is well formed and duplicate-free whenever its
/// default database path fits a value slot, so the save/load round
/// trip applies to it.
pub proof fn lemma_fresh_store_wf(db: Seq<char>, mode: BuildMode, entropy: u64)
    requires
        wf_value(db),
    ensures
        wf_model(default_model(db)),
        wf_model(with_port(default_model(db), mode, entropy)),
        dedup_model(default_model(db)),
        dedup_model(with_port(default_model(db), mode, entropy)),
{
    assert(dedup_model(Seq::<SpecSection>::empty()));
    lemma_spec_set_dedup(Seq::empty(), "app"@, "database_path"@, Some(db));
    reveal_strlit("app");
    reveal_strlit("database_path");
    reveal_strlit("port");
    assert(wf_name("app"@));
    assert(wf_key("database_path"@));
    assert(wf_key("port"@));
    assert(wf_model(Seq::<SpecSection>::empty()));
    lemma_set_preserves_wf(Seq::empty(), "app"@, "database_path"@, Some(db));
    let base = default_model(db);
    if spec_get(base, "app"@, "port"@) is None {
        let pv = dec_digits(spec_chosen_port(mode, entropy) as nat);
        crate::num::lemma_dec_digits_val(spec_chosen_port(mode, entropy) as nat);
        assert(wf_value(pv)) by {
            assert(forall|i: int|
                0 <= i < pv.len() ==> crate::num::is_digit(#[trigger] pv[i]));
        }
        lemma_set_preserves_wf(base, "app"@, "port"@, Some(pv));
        lemma_spec_set_dedup(base, "app"@, "port"@, Some(pv));
    }
}

// ---------------------------------------------------------------
// Derived readings: typed values, the visible snapshot, the port.
// ---------------------------------------------------------------

/// The integer under a key, or the default when the key is absent,
/// cleared, or not a well-formed integer.
pub open spec fn spec_get_int(
    m: Seq<SpecSection>,
    section: Seq<char>,
    key: Seq<char>,
    default: i64,
) -> i64 {
    match spec_get(m, section, key) {
        Some(v) => match spec_parse_i64(v) {
            Some(n) => n,
            None => default,
        },
        None => default,
    }
}

/// The boolean under a key, with the same fallback rule.
pub open spec fn spec_get_bool(
    m: Seq<SpecSection>,
    section: Seq<char>,
    key: Seq<char>,
    default: bool,
) -> bool {
    match spec_get(m, section, key) {
        Some(v) => match spec_parse_bool(v) {
            Some(b) => b,
            None => default,
        },
        None => default,
    }
}

/// The items of a section that still carry a value, in order.
pub open spec fn visible_items(items: Seq<SpecItem>) -> Seq<SpecItem>
    decreases items.len(),
{
    if items.len() == 0 {
        Seq::empty()
    } else {
        let rest = visible_items(items.drop_last());
        if items.last().value is Some {
            rest.push(items.last())
        } else {
            rest
        }
    }
}

/// Every section with only its visible items.
pub open spec fn spec_get_all(m: Seq<SpecSection>) -> Seq<SpecSection>
    decreases m.len(),
{
    if m.len() == 0 {
        Seq::empty()
    } else {
        spec_get_all(m.drop_last()).push(
            SpecSection { name: m.last().name, items: visible_items(m.last().items) },
        )
    }
}

/// An integer folded into the port range, as a two's-complement
/// truncation to sixteen bits.
pub open spec fn port_of(v: int) -> int {
    v % 65536
}

/// The port chosen when a store opens with no port on record: the
/// fixed development port, or a time-seeded offset above it.
pub open spec fn spec_chosen_port(mode: BuildMode, entropy: u64) -> u16 {
    match mode {
        BuildMode::Development => 8000,
        BuildMode::Production => (8000 + entropy % 1000) as u16,
    }
}

/// The store a first launch writes: only the default database path.
pub open spec fn default_model(db: Seq<char>) -> Seq<SpecSection> {
    spec_set(Seq::empty(), "app"@, "database_path"@, Some(db))
}

/// Inject a freshly chosen port, but only when none is on record.
pub open spec fn with_port(m: Seq<SpecSection>, mode: BuildMode, entropy: u64) -> Seq<
    SpecSection,
> {
    if spec_get(m, "app"@, "port"@) is Some {
        m
    } else {
        spec_set(
            m,
            "app"@,
            "port"@,
            Some(dec_digits(spec_chosen_port(mode, entropy) as nat)),
        )
    }
}

/// Pick the port for a store that has none on record.
pub fn choose_port(mode: BuildMode, entropy: u64) -> (r: u16)
    ensures
        r == spec_chosen_port(mode, entropy),
{
    match mode {
        BuildMode::Development => 8000,
        BuildMode::Production => 8000 + (entropy % 1000) as u16,
    }
}

/// Fold a stored integer into the port range.
fn port_from_int(v: i64) -> (p: u16)
    ensures
        p as int == port_of(v as int),
{
    if v >= 0 {
        let r = v % 65536;
        r as u16
    } else {
        let pos: u64 = if v == i64::MIN {
            9223372036854775808u64
        } else {
            (-v) as u64
        };
        let rem: u64 = pos % 65536;
        let p: u64 = if rem == 0 {
            0
        } else {
            65536 - rem
        };
        proof {
            let qd = pos as int / 65536;
            vstd::arithmetic::div_mod::lemma_fundamental_div_mod(pos as int, 65536);
            if rem == 0 {
                vstd::arithmetic::div_mod::lemma_fundamental_div_mod_converse(
                    v as int,
                    65536,
                    -qd,
                    0,
                );
            } else {
                vstd::arithmetic::div_mod::lemma_fundamental_div_mod_converse(
                    v as int,
                    65536,
                    -qd - 1,
                    65536 - rem as int,
                );
            }
        }
        p as u16
    }
}

// ---------------------------------------------------------------
// The store.
// ---------------------------------------------------------------

/// The in-memory configuration store: the sections in file order,
/// the path its file lives at, and the fallback database path.
pub struct ConfigManager {
    sections: Vec<Section>,
    config_path: String,
    default_db_path: String,
}

impl ConfigManager {
    /// The section/key/value map this store holds.
    pub closed spec fn model(&self) -> Seq<SpecSection> {
        self.sections.deep_view()
    }

    pub closed spec fn spec_config_path(&self) -> Seq<char> {
        self.config_path@
    }

    pub closed spec fn spec_default_db_path(&self) -> Seq<char> {
        self.default_db_path@
    }

    /// Open a store.  `file_text` is the configuration file's content
    /// when one exists.  With no file, the store starts from the
    /// default database path and hands back the text a first launch
    /// must persist.  Either way, when no port is on record one is
    /// chosen from the build mode and the caller's entropy and kept
    /// in memory only: the returned initial text never holds it.
    pub fn new(
        file_text: Option<&str>,
        config_path: &str,
        default_db_path: &str,
        mode: BuildMode,
        entropy: u64,
    ) -> (r: Result<(ConfigManager, Option<String>), String>)
        ensures
            match r {
                Ok((cm, init)) => {
                    &&& cm.spec_config_path() == config_path@
                    &&& cm.spec_default_db_path() == default_db_path@
                    &&& match file_text {
                        None => {
                            &&& init is Some
                            &&& init.unwrap()@ == spec_ini_text(default_model(default_db_path@))
                            &&& cm.model() == with_port(
                                default_model(default_db_path@),
                                mode,
                                entropy,
                            )
                        },
                        Some(t) => {
                            &&& init is None
                            &&& spec_parse_ini(t@) is Some
                            &&& cm.model() == with_port(spec_parse_ini(t@).unwrap(), mode, entropy)
                        },
                    }
                    &&& dedup_model(cm.model())
                },
                Err(_) => file_text is Some && spec_parse_ini(file_text.unwrap()@) is None,
            },
    {
        match file_text {
            None => {
                let empty: Vec<Section> = Vec::new();
                proof {
                    assert(empty.deep_view() =~= Seq::<SpecSection>::empty());
                }
                let mut cm = ConfigManager {
                    sections: empty,
                    config_path: config_path.to_owned(),
                    default_db_path: default_db_path.to_owned(),
                };
                let _ = cm.set("app", "database_path", default_db_path);
                let init = cm.save_text();
                let ghost base = cm.model();
                cm.ensure_port(mode, entropy);
                proof {
                    assert(dedup_model(Seq::<SpecSection>::empty()));
                    lemma_spec_set_dedup(
                        Seq::empty(),
                        "app"@,
                        "database_path"@,
                        Some(default_db_path@),
                    );
                    if spec_get(base, "app"@, "port"@) is None {
                        lemma_spec_set_dedup(
                            base,
                            "app"@,
                            "port"@,
                            Some(dec_digits(spec_chosen_port(mode, entropy) as nat)),
                        );
                    }
                }
                Ok((cm, Some(init)))
            },
            Some(t) => {
                match parse_ini(t) {
                    Err(e) => Err(e),
                    Ok(secs) => {
                        let mut cm = ConfigManager {
                            sections: secs,
                            config_path: config_path.to_owned(),
                            default_db_path: default_db_path.to_owned(),
                        };
                        let ghost base = cm.model();
                        cm.ensure_port(mode, entropy);
                        proof {
                            crate::ini::lemma_parse_wf(t@);
                            if spec_get(base, "app"@, "port"@) is None {
                                lemma_spec_set_dedup(
                                    base,
                                    "app"@,
                                    "port"@,
                                    Some(dec_digits(spec_chosen_port(mode, entropy) as nat)),
                                );
                            }
                        }
                        Ok((cm, None))
                    },
                }
            },
        }
    }

    /// Choose and record a port in memory when none is stored.
    fn ensure_port(&mut self, mode: BuildMode, entropy: u64)
        ensures
            final(self).model() == with_port(old(self).model(), mode, entropy),
            final(self).spec_config_path() == old(self).spec_config_path(),
            final(self).spec_default_db_path() == old(self).spec_default_db_path(),
    {
        let existing = self.get("app", "port");
        match existing {
            Some(_) => {},
            None => {
                let p = choose_port(mode, entropy);
                let ps = crate::num::u64_to_string(p as u64);
                let _ = self.set("app", "port", ps.as_str());
                proof {
                    assert(dec_digits(p as nat) == dec_digits(
                        spec_chosen_port(mode, entropy) as nat,
                    ));
                }
            },
        }
    }

    /// The string under a section and key, if one is visible.
    pub fn get(&self, section: &str, key: &str) -> (r: Option<String>)
        ensures
            r.deep_view() == spec_get(self.model(), section@, key@),
    {
        match find_section_idx(&self.sections, section) {
            None => None,
            Some(i) => {
                proof {
                    assert(self.sections.deep_view()[i as int] == self.sections[i as int]@);
                }
                match find_item_idx(&self.sections[i].items, key) {
                    None => None,
                    Some(j) => {
                        proof {
                            assert(self.sections[i as int].items.deep_view()[j as int]
                                == self.sections[i as int].items[j as int]@);
                        }
                        match &self.sections[i].items[j].value {
                            Some(v) => Some(v.clone()),
                            None => None,
                        }
                    },
                }
            },
        }
    }

    /// Store a string under a section and key, creating both as
    /// needed.  Never fails; the `Result` mirrors the store's API.
    pub fn set(&mut self, section: &str, key: &str, value: &str) -> (r: Result<(), String>)
        ensures
            r is Ok,
            final(self).model() == spec_set(old(self).model(), section@, key@, Some(value@)),
            final(self).spec_config_path() == old(self).spec_config_path(),
            final(self).spec_default_db_path() == old(self).spec_default_db_path(),
    {
        self.put(section, key, Some(value.to_owned()));
        Ok(())
    }

    /// Clear the value under a section and key.  The key stays, with
    /// no value, which is how the file format records a removal.  A
    /// read then finds nothing, and the snapshot agrees: see
    /// `lemma_get_after_remove` and `lemma_remove_omits_from_snapshot`.
    pub fn remove(&mut self, section: &str, key: &str) -> (r: Result<(), String>)
        ensures
            r is Ok,
            final(self).model() == spec_set(old(self).model(), section@, key@, None),
            final(self).spec_config_path() == old(self).spec_config_path(),
            final(self).spec_default_db_path() == old(self).spec_default_db_path(),
    {
        self.put(section, key, None);
        Ok(())
    }

    /// Write a value or a cleared slot at the first match.
    fn put(&mut self, section: &str, key: &str, value: Option<String>)
        ensures
            final(self).model() == spec_set(old(self).model(), section@, key@, value.deep_view()),
            final(self).spec_config_path() == old(self).spec_config_path(),
            final(self).spec_default_db_path() == old(self).spec_default_db_path(),
    {
        store_put(&mut self.sections, section, key, value);
    }

    /// The file text of the store as it stands.  The caller persists
    /// it; nothing here touches a disk.
    pub fn save_text(&self) -> (r: String)
        ensures
            r@ == spec_ini_text(self.model()),
    {
        to_ini_text(&self.sections)
    }

    /// Replace the store with the sections parsed from file text.
    /// On a rejected text the store is left as it was.
    pub fn reload(&mut self, text: &str) -> (r: Result<(), String>)
        ensures
            match r {
                Ok(_) => {
                    &&& spec_parse_ini(text@) is Some
                    &&& final(self).model() == spec_parse_ini(text@).unwrap()
                    &&& dedup_model(final(self).model())
                },
                Err(_) => {
                    &&& spec_parse_ini(text@) is None
                    &&& final(self).model() == old(self).model()
                },
            },
            final(self).spec_config_path() == old(self).spec_config_path(),
            final(self).spec_default_db_path() == old(self).spec_default_db_path(),
    {
        match parse_ini(text) {
            Ok(secs) => {
                self.sections = secs;
                proof {
                    crate::ini::lemma_parse_wf(text@);
                }
                Ok(())
            },
            Err(e) => Err(e),
        }
    }

    /// Every section with its visible key/value pairs, in order.
    pub fn get_all(&self) -> (r: Vec<Section>)
        ensures
            r.deep_view() == spec_get_all(self.model()),
    {
        let ghost md = self.sections.deep_view();
        let mut out: Vec<Section> = Vec::new();
        let mut i: usize = 0;
        proof {
            assert(md.take(0) =~= Seq::<SpecSection>::empty());
            assert(out.deep_view() =~= spec_get_all(md.take(0)));
        }
        while i < self.sections.len()
            invariant
                0 <= i <= self.sections.len(),
                md == self.sections.deep_view(),
                md.len() == self.sections.len(),
                out.deep_view() == spec_get_all(md.take(i as int)),
            decreases self.sections.len() - i,
        {
            proof {
                assert(md[i as int] == self.sections[i as int]@);
            }
            let sec = &self.sections[i];
            let ghost sitems = sec@.items;
            let mut its: Vec<Item> = Vec::new();
            let mut j: usize = 0;
            proof {
                assert(sitems.take(0) =~= Seq::<SpecItem>::empty());
                assert(its.deep_view() =~= visible_items(sitems.take(0)));
            }
            while j < sec.items.len()
                invariant
                    0 <= j <= sec.items.len(),
                    sitems == sec@.items,
                    sitems.len() == sec.items.len(),
                    its.deep_view() == visible_items(sitems.take(j as int)),
                decreases sec.items.len() - j,
            {
                proof {
                    assert(sitems[j as int] == sec.items[j as int]@);
                    assert(sitems.take(j + 1).drop_last() =~= sitems.take(j as int));
                    assert(sitems.take(j + 1).last() == sitems[j as int]);
                }
                let it = &sec.items[j];
                match &it.value {
                    Some(v) => {
                        let ghost before = its.deep_view();
                        its.push(Item { key: it.key.clone(), value: Some(v.clone()) });
                        proof {
                            assert(its.deep_view() =~~= before.push(sitems[j as int]));
                        }
                    },
                    None => {},
                }
                j = j + 1;
            }
            proof {
                assert(sitems.take(sitems.len() as int) =~= sitems);
            }
            let ghost before_out = out.deep_view();
            out.push(Section { name: sec.name.clone(), items: its });
            proof {
                assert(md.take(i + 1).drop_last() =~= md.take(i as int));
                assert(md.take(i + 1).last() == md[i as int]);
                assert(out.deep_view() =~~= before_out.push(
                    SpecSection { name: md[i as int].name, items: visible_items(md[i as int].items) },
                ));
            }
            i = i + 1;
        }
        proof {
            assert(md.take(md.len() as int) =~= md);
        }
        out
    }

    /// The boolean under a key, or the default on absence or a value
    /// that is not exactly "true" or "false".
    pub fn get_bool(&self, section: &str, key: &str, default: bool) -> (r: bool)
        ensures
            r == spec_get_bool(self.model(), section@, key@, default),
    {
        match self.get(section, key) {
            Some(v) => match crate::num::parse_bool(v.as_str()) {
                Some(b) => b,
                None => default,
            },
            None => default,
        }
    }

    /// Store a boolean in its canonical string form.
    pub fn set_bool(&mut self, section: &str, key: &str, value: bool) -> (r: Result<(), String>)
        ensures
            r is Ok,
            value ==> final(self).model() == spec_set(old(self).model(), section@, key@, Some("true"@)),
            !value ==> final(self).model() == spec_set(old(self).model(), section@, key@, Some("false"@)),
            final(self).spec_config_path() == old(self).spec_config_path(),
            final(self).spec_default_db_path() == old(self).spec_default_db_path(),
    {
        let s = crate::num::bool_to_string(value);
        self.set(section, key, s.as_str())
    }

    /// The integer under a key, or the default on absence or a value
    /// that is not a well-formed `i64`.
    pub fn get_int(&self, section: &str, key: &str, default: i64) -> (r: i64)
        ensures
            r == spec_get_int(self.model(), section@, key@, default),
    {
        match self.get(section, key) {
            Some(v) => match crate::num::parse_i64(v.as_str()) {
                Some(n) => n,
                None => default,
            },
            None => default,
        }
    }

    /// Store an integer in its canonical decimal form.
    pub fn set_int(&mut self, section: &str, key: &str, value: i64) -> (r: Result<(), String>)
        ensures
            r is Ok,
            final(self).model() == spec_set(
                old(self).model(),
                section@,
                key@,
                Some(crate::num::spec_i64_string(value as int)),
            ),
            final(self).spec_config_path() == old(self).spec_config_path(),
            final(self).spec_default_db_path() == old(self).spec_default_db_path(),
    {
        let s = crate::num::i64_to_string(value);
        self.set(section, key, s.as_str())
    }

    /// The stored database path, or the platform default the store
    /// was opened with.
    pub fn get_database_path(&self) -> (r: String)
        ensures
            match spec_get(self.model(), "app"@, "database_path"@) {
                Some(v) => r@ == v,
                None => r@ == self.spec_default_db_path(),
            },
    {
        match self.get("app", "database_path") {
            Some(v) => v,
            None => self.default_db_path.clone(),
        }
    }

    /// Store the database path.
    pub fn set_database_path(&mut self, path: &str) -> (r: Result<(), String>)
        ensures
            r is Ok,
            final(self).model() == spec_set(old(self).model(), "app"@, "database_path"@, Some(path@)),
            final(self).spec_config_path() == old(self).spec_config_path(),
            final(self).spec_default_db_path() == old(self).spec_default_db_path(),
    {
        self.set("app", "database_path", path)
    }

    /// The backend port: the stored integer folded to sixteen bits,
    /// or the development default when nothing usable is stored.
    /// Cannot fail; the `Result` mirrors the store's API.
    pub fn get_port(&self) -> (r: Result<u16, String>)
        ensures
            r is Ok,
            r.unwrap() as int == port_of(spec_get_int(self.model(), "app"@, "port"@, 8000) as int),
    {
        let v = self.get_int("app", "port", 8000);
        Ok(port_from_int(v))
    }

    /// Store the backend port.  Unlike the other setters, this one is
    /// meant to be persisted at once: the caller writes the store's
    /// text right after.
    pub fn set_port(&mut self, port: u16) -> (r: Result<(), String>)
        ensures
            r is Ok,
            final(self).model() == spec_set(
                old(self).model(),
                "app"@,
                "port"@,
                Some(crate::num::spec_i64_string(port as int)),
            ),
            final(self).spec_config_path() == old(self).spec_config_path(),
            final(self).spec_default_db_path() == old(self).spec_default_db_path(),
    {
        self.set_int("app", "port", port as i64)
    }

    /// The path of the configuration file this store belongs to.
    pub fn config_path(&self) -> (r: String)
        ensures
            r@ == self.spec_config_path(),
    {
        self.config_path.clone()
    }
}

} // verus!
