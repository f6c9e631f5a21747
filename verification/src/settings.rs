//! Setting values as a preset holds them, and which values of a setting disable other settings.

use vstd::prelude::*;
use crate::presets::{Settings, name_position, find_named};

verus! {

/// The value of a setting: `null`, a boolean, an integer, a string, a list, or a table of named
/// values.
pub enum SettingValue {
    Null,
    Bool(bool),
    Int(i128),
    Str(String),
    List(Vec<SettingValue>),
    Dict(Vec<(String, SettingValue)>),
}

/// A value of a setting that disables other settings, as a key of the setting's table of
/// disables: `null`, a boolean, an integer, or a string. A string starting with `!` stands for
/// every value but the string after it.
pub enum DisableKey {
    Null,
    Bool(bool),
    Int(i128),
    Str(String),
}

/// Whether `value` is the value `key` names.
pub open spec fn equals_key(value: SettingValue, key: DisableKey) -> bool {
    match (value, key) {
        (SettingValue::Null, DisableKey::Null) => true,
        (SettingValue::Bool(a), DisableKey::Bool(b)) => a == b,
        (SettingValue::Int(a), DisableKey::Int(b)) => a == b,
        (SettingValue::Str(a), DisableKey::Str(b)) => a@ == b@,
        _ => false,
    }
}

/// Whether a setting whose value is `value` disables what `key` lists: for a key `!s`,
/// whenever the value is anything but the string `s`; for any other key, when the value is the
/// key.
pub open spec fn spec_matches_disable(value: SettingValue, key: DisableKey) -> bool {
    match key {
        DisableKey::Str(k) => if k@.len() > 0 && k@[0] == '!' {
            !(value matches SettingValue::Str(v) && v@ == k@.drop_first())
        } else {
            equals_key(value, key)
        },
        _ => equals_key(value, key),
    }
}

/// A key that is not a string starting with `!` matches exactly the value it names.
pub proof fn law_plain_key_matches_its_value(value: SettingValue, key: DisableKey)
    requires
        !(key matches DisableKey::Str(k) && k@.len() > 0 && k@[0] == '!'),
    ensures
        spec_matches_disable(value, key) <==> match key {
            DisableKey::Null => value is Null,
            DisableKey::Bool(b) => value matches SettingValue::Bool(c) && c == b,
            DisableKey::Int(b) => value matches SettingValue::Int(c) && c == b,
            DisableKey::Str(k) => value matches SettingValue::Str(v) && v@ == k@,
        },
{
}

/// The key `!s` matches exactly the values that the key `s` does not match.
pub proof fn law_negated_key_matches_the_rest(value: SettingValue, s: String, not_s: String)
    requires
        not_s@ == seq!['!'] + s@,
        !(s@.len() > 0 && s@[0] == '!'),
    ensures
        spec_matches_disable(value, DisableKey::Str(not_s)) == !spec_matches_disable(value, DisableKey::Str(s)),
{
    assert(not_s@.drop_first() =~= s@);
    assert(not_s@[0] == '!');
}

/// Whether `a` equals `b` without its first character.
fn equals_after_first(a: &String, b: &String) -> (r: bool)
    requires
        b@.len() > 0,
    ensures
        r == (a@ == b@.drop_first()),
{
    let sa = a.as_str();
    let sb = b.as_str();
    let na = sa.unicode_len();
    let nb = sb.unicode_len();
    if nb == 0 || na != nb - 1 {
        proof {
            assert(a@.len() != b@.drop_first().len());
        }
        return false;
    }
    let mut i: usize = 0;
    while i < na
        invariant
            na == a@.len(),
            nb == b@.len(),
            na + 1 == nb,
            sa@ == a@,
            sb@ == b@,
            i <= na,
            forall|j: int| 0 <= j < i ==> a@[j] == b@[j + 1],
        decreases na - i,
    {
        if sa.get_char(i) != sb.get_char(i + 1) {
            proof {
                assert(a@[i as int] != b@.drop_first()[i as int]);
            }
            return false;
        }
        i = i + 1;
    }
    proof {
        assert(a@ =~= b@.drop_first());
    }
    true
}

/// Whether `value` is the value `key` names.
fn value_equals_key(value: &SettingValue, key: &DisableKey) -> (r: bool)
    ensures
        r == equals_key(*value, *key),
{
    match (value, key) {
        (SettingValue::Null, DisableKey::Null) => true,
        (SettingValue::Bool(a), DisableKey::Bool(b)) => *a == *b,
        (SettingValue::Int(a), DisableKey::Int(b)) => *a == *b,
        (SettingValue::Str(a), DisableKey::Str(b)) => *a == *b,
        _ => false,
    }
}

/// Whether a setting whose value is `value` disables the tabs, sections and settings that the
/// disable table lists under `key`.
pub fn matches_disable(value: &SettingValue, key: &DisableKey) -> (r: bool)
    ensures
        r == spec_matches_disable(*value, *key),
{
    if let DisableKey::Str(k) = key {
        let sk = k.as_str();
        if sk.unicode_len() > 0 && sk.get_char(0) == '!' {
            return match value {
                SettingValue::Str(v) => !equals_after_first(v, k),
                _ => true,
            };
        }
    }
    value_equals_key(value, key)
}

/// What a value of a setting disables: tabs, sections and settings, by name.
pub struct Disables {
    pub tabs: Vec<String>,
    pub sections: Vec<String>,
    pub settings: Vec<String>,
}

/// The value a preset gives the setting `name`: its own, or else the setting's default.
pub open spec fn value_in_preset(preset: Seq<(String, SettingValue)>, name: Seq<char>, default: SettingValue) -> SettingValue {
    let k = name_position(preset, name, 0);
    if k < preset.len() {
        preset[k].1
    } else {
        default
    }
}

/// The tabs, sections and settings that the first `n` entries of a disable table disable for
/// a setting whose value is `value`, each list in the table's order.
pub open spec fn disabled_by(table: Seq<(DisableKey, Disables)>, value: SettingValue, n: int) -> (
    Seq<String>,
    Seq<String>,
    Seq<String>,
)
    decreases n,
{
    if n <= 0 {
        (Seq::empty(), Seq::empty(), Seq::empty())
    } else {
        let (t, s, g) = disabled_by(table, value, n - 1);
        let (key, d) = table[n - 1];
        if spec_matches_disable(value, key) {
            (t + d.tabs@, s + d.sections@, g + d.settings@)
        } else {
            (t, s, g)
        }
    }
}

proof fn lemma_concat_contains<A>(a: Seq<A>, b: Seq<A>, x: A)
    ensures
        (a + b).contains(x) <==> a.contains(x) || b.contains(x),
{
    if a.contains(x) {
        let k = choose|k: int| 0 <= k < a.len() && a[k] == x;
        assert((a + b)[k] == x);
    }
    if b.contains(x) {
        let k = choose|k: int| 0 <= k < b.len() && b[k] == x;
        assert((a + b)[a.len() + k] == x);
    }
    if (a + b).contains(x) {
        let k = choose|k: int| 0 <= k < (a + b).len() && (a + b)[k] == x;
        if k < a.len() {
            assert(a[k] == x);
        } else {
            assert(b[k - a.len()] == x);
        }
    }
}

proof fn lemma_disabled_by(table: Seq<(DisableKey, Disables)>, value: SettingValue, n: int)
    requires
        0 <= n <= table.len(),
    ensures
        ({
            let (t, s, g) = disabled_by(table, value, n);
            &&& forall|i: int, x: String|
                0 <= i < n && spec_matches_disable(value, table[i].0) && #[trigger] table[i].1.tabs@.contains(x)
                    ==> t.contains(x)
            &&& forall|i: int, x: String|
                0 <= i < n && spec_matches_disable(value, table[i].0) && #[trigger] table[i].1.sections@.contains(x)
                    ==> s.contains(x)
            &&& forall|i: int, x: String|
                0 <= i < n && spec_matches_disable(value, table[i].0) && #[trigger] table[i].1.settings@.contains(x)
                    ==> g.contains(x)
            &&& forall|x: String|
                #[trigger] t.contains(x) ==> exists|i: int|
                    0 <= i < n && spec_matches_disable(value, table[i].0) && #[trigger] table[i].1.tabs@.contains(x)
            &&& forall|x: String|
                #[trigger] s.contains(x) ==> exists|i: int|
                    0 <= i < n && spec_matches_disable(value, table[i].0) && #[trigger] table[i].1.sections@.contains(x)
            &&& forall|x: String|
                #[trigger] g.contains(x) ==> exists|i: int|
                    0 <= i < n && spec_matches_disable(value, table[i].0) && #[trigger] table[i].1.settings@.contains(x)
        }),
    decreases n,
{
    if n > 0 {
        lemma_disabled_by(table, value, n - 1);
        let (t0, s0, g0) = disabled_by(table, value, n - 1);
        let (key, d) = table[n - 1];
        if spec_matches_disable(value, key) {
            assert forall|x: String| #![all_triggers] true implies ((t0 + d.tabs@).contains(x) <==> t0.contains(x)
                || d.tabs@.contains(x)) && ((s0 + d.sections@).contains(x) <==> s0.contains(x) || d.sections@.contains(x))
                && ((g0 + d.settings@).contains(x) <==> g0.contains(x) || d.settings@.contains(x)) by {
                lemma_concat_contains(t0, d.tabs@, x);
                lemma_concat_contains(s0, d.sections@, x);
                lemma_concat_contains(g0, d.settings@, x);
            }
        }
    }
}

/// Which tabs, sections and settings a value disables: everything that an entry of the
/// disable table whose key the value matches lists, and nothing else. Each entry contributes
/// whether or not other entries match.
pub proof fn law_disables_of_matching_entries(table: Seq<(DisableKey, Disables)>, value: SettingValue)
    ensures
        ({
            let (t, s, g) = disabled_by(table, value, table.len() as int);
            &&& forall|i: int, x: String|
                0 <= i < table.len() && spec_matches_disable(value, table[i].0) && #[trigger] table[i].1.tabs@.contains(x)
                    ==> t.contains(x)
            &&& forall|i: int, x: String|
                0 <= i < table.len() && spec_matches_disable(value, table[i].0)
                    && #[trigger] table[i].1.sections@.contains(x) ==> s.contains(x)
            &&& forall|i: int, x: String|
                0 <= i < table.len() && spec_matches_disable(value, table[i].0)
                    && #[trigger] table[i].1.settings@.contains(x) ==> g.contains(x)
            &&& forall|x: String|
                #[trigger] t.contains(x) ==> exists|i: int|
                    0 <= i < table.len() && spec_matches_disable(value, table[i].0) && #[trigger] table[i].1.tabs@.contains(x)
            &&& forall|x: String|
                #[trigger] s.contains(x) ==> exists|i: int|
                    0 <= i < table.len() && spec_matches_disable(value, table[i].0)
                        && #[trigger] table[i].1.sections@.contains(x)
            &&& forall|x: String|
                #[trigger] g.contains(x) ==> exists|i: int|
                    0 <= i < table.len() && spec_matches_disable(value, table[i].0)
                        && #[trigger] table[i].1.settings@.contains(x)
        }),
{
    lemma_disabled_by(table, value, table.len() as int);
}

fn append_names(out: &mut Vec<String>, names: &Vec<String>)
    ensures
        final(out)@ == old(out)@ + names@,
{
    let ghost start = out@;
    let mut i: usize = 0;
    while i < names.len()
        invariant
            i <= names@.len(),
            out@ == start + names@.subrange(0, i as int),
        decreases names@.len() - i,
    {
        out.push(names[i].clone());
        i = i + 1;
        proof {
            assert(out@ =~= start + names@.subrange(0, i as int));
        }
    }
    proof {
        assert(names@.subrange(0, names@.len() as int) =~= names@);
    }
}

/// Adds to `out` the tabs, sections and settings that the setting `name` disables: with the
/// value `preset` gives it (or `default`), each entry of its disable `table` that the value
/// matches adds what it lists, in the table's order.
pub fn add_disables(preset: &Settings<SettingValue>, name: &String, default: &SettingValue, table: &Vec<(DisableKey, Disables)>, out: &mut Disables)
    ensures
        ({
            let (t, s, g) = disabled_by(table@, value_in_preset(preset@, name@, *default), table@.len() as int);
            &&& final(out).tabs@ == old(out).tabs@ + t
            &&& final(out).sections@ == old(out).sections@ + s
            &&& final(out).settings@ == old(out).settings@ + g
        }),
{
    let k = find_named(preset, name);
    let value = if k < preset.len() {
        &preset[k].1
    } else {
        default
    };
    let ghost t0 = out.tabs@;
    let ghost s0 = out.sections@;
    let ghost g0 = out.settings@;
    let mut i: usize = 0;
    while i < table.len()
        invariant
            i <= table@.len(),
            *value == value_in_preset(preset@, name@, *default),
            ({
                let (t, s, g) = disabled_by(table@, *value, i as int);
                &&& out.tabs@ == t0 + t
                &&& out.sections@ == s0 + s
                &&& out.settings@ == g0 + g
            }),
        decreases table@.len() - i,
    {
        let ghost before = disabled_by(table@, *value, i as int);
        if matches_disable(value, &table[i].0) {
            append_names(&mut out.tabs, &table[i].1.tabs);
            append_names(&mut out.sections, &table[i].1.sections);
            append_names(&mut out.settings, &table[i].1.settings);
            proof {
                assert(out.tabs@ =~= t0 + (before.0 + table@[i as int].1.tabs@));
                assert(out.sections@ =~= s0 + (before.1 + table@[i as int].1.sections@));
                assert(out.settings@ =~= g0 + (before.2 + table@[i as int].1.settings@));
            }
        }
        i = i + 1;
    }
}

/// Whether one of `names` is `name`.
pub open spec fn lists_name(names: Seq<String>, name: Seq<char>) -> bool {
    exists|i: int| 0 <= i < names.len() && (#[trigger] names[i])@ == name
}

fn contains_name(names: &Vec<String>, name: &String) -> (r: bool)
    ensures
        r == lists_name(names@, name@),
{
    let mut i: usize = 0;
    while i < names.len()
        invariant
            i <= names@.len(),
            forall|j: int| 0 <= j < i ==> (#[trigger] names@[j])@ != name@,
        decreases names@.len() - i,
    {
        if names[i] == *name {
            proof {
                assert(names@[i as int]@ == name@);
            }
            return true;
        }
        i = i + 1;
    }
    false
}

/// Whether the setting `setting`, in section `section` of tab `tab`, can be edited: none of
/// them is disabled.
pub fn setting_enabled(disabled: &Disables, tab: &String, section: &String, setting: &String) -> (r: bool)
    ensures
        r == !(lists_name(disabled.tabs@, tab@) || lists_name(disabled.sections@, section@) || lists_name(
            disabled.settings@,
            setting@,
        )),
{
    !contains_name(&disabled.tabs, tab) && !contains_name(&disabled.sections, section) && !contains_name(
        &disabled.settings,
        setting,
    )
}

/// The position of `v` among `choices`, or -1 if it is not one of them: the order in which a
/// list of choices is kept.
pub open spec fn choice_key(choices: Seq<String>, v: Seq<char>) -> int {
    let k = name_position(choices.map_values(|c: String| (c, ())), v, 0);
    if k < choices.len() {
        k
    } else {
        -1
    }
}

/// The first `n` of `selected` without the entries equal to `v`.
pub open spec fn without(selected: Seq<String>, v: Seq<char>, n: int) -> Seq<String>
    decreases n,
{
    if n <= 0 {
        Seq::empty()
    } else if selected[n - 1]@ == v {
        without(selected, v, n - 1)
    } else {
        without(selected, v, n - 1).push(selected[n - 1])
    }
}

/// The first position in `selected` from `i` on whose key comes after `key`, or its length.
pub open spec fn insert_position(selected: Seq<String>, choices: Seq<String>, key: int, i: int) -> int
    decreases selected.len() - i,
{
    if i < 0 || i >= selected.len() {
        selected.len() as int
    } else if choice_key(choices, selected[i]@) > key {
        i
    } else {
        insert_position(selected, choices, key, i + 1)
    }
}

/// Choosing `value` in a multiple-choice setting whose selection is `selected`: a selected
/// value is deselected (every entry equal to it leaves); another is put where its position
/// among `choices` places it, after the entries whose position is not past its own, unless an
/// entry with the same position is already there.
pub open spec fn spec_toggle_choice(selected: Seq<String>, value: String, choices: Seq<String>) -> Seq<String> {
    if exists|i: int| 0 <= i < selected.len() && (#[trigger] selected[i])@ == value@ {
        without(selected, value@, selected.len() as int)
    } else if exists|i: int|
        0 <= i < selected.len() && choice_key(choices, (#[trigger] selected[i])@) == choice_key(choices, value@) {
        selected
    } else {
        selected.insert(insert_position(selected, choices, choice_key(choices, value@), 0), value)
    }
}

proof fn lemma_insert_position(selected: Seq<String>, choices: Seq<String>, key: int, i: int)
    requires
        0 <= i <= selected.len(),
    ensures
        i <= insert_position(selected, choices, key, i) <= selected.len(),
    decreases selected.len() - i,
{
    if i < selected.len() && choice_key(choices, selected[i]@) <= key {
        lemma_insert_position(selected, choices, key, i + 1);
    }
}

fn position_of_choice(choices: &Vec<String>, v: &String) -> (r: i64)
    requires
        choices@.len() < i64::MAX,
    ensures
        r == choice_key(choices@, v@),
{
    let ghost cs = choices@.map_values(|c: String| (c, ()));
    let mut k: usize = 0;
    while k < choices.len()
        invariant
            k <= choices@.len(),
            choices@.len() < i64::MAX,
            cs == choices@.map_values(|c: String| (c, ())),
            name_position(cs, v@, k as int) == name_position(cs, v@, 0),
        decreases choices@.len() - k,
    {
        assert(cs[k as int].0 == choices@[k as int]);
        if choices[k] == *v {
            return k as i64;
        }
        k = k + 1;
    }
    -1
}

/// Chooses `value` in a multiple-choice setting whose selection is `selected` and whose choices
/// are `choices`, in their order: see `spec_toggle_choice`.
pub fn toggle_choice(selected: &Vec<String>, value: String, choices: &Vec<String>) -> (r: Vec<String>)
    requires
        choices@.len() < i64::MAX,
    ensures
        r@ == spec_toggle_choice(selected@, value, choices@),
{
    let n = selected.len();
    let mut found = false;
    let mut i: usize = 0;
    while i < n
        invariant
            n == selected@.len(),
            i <= n,
            found <==> exists|j: int| 0 <= j < i && (#[trigger] selected@[j])@ == value@,
        decreases n - i,
    {
        if selected[i] == value {
            found = true;
        }
        i = i + 1;
    }
    if found {
        let mut r: Vec<String> = Vec::new();
        let mut j: usize = 0;
        while j < n
            invariant
                n == selected@.len(),
                j <= n,
                r@ == without(selected@, value@, j as int),
            decreases n - j,
        {
            if selected[j] != value {
                r.push(selected[j].clone());
            }
            j = j + 1;
        }
        return r;
    }
    let key = position_of_choice(choices, &value);
    let mut same = false;
    let mut i2: usize = 0;
    while i2 < n
        invariant
            n == selected@.len(),
            i2 <= n,
            choices@.len() < i64::MAX,
            key == choice_key(choices@, value@),
            same <==> exists|j: int|
                0 <= j < i2 && choice_key(choices@, (#[trigger] selected@[j])@) == choice_key(choices@, value@),
        decreases n - i2,
    {
        let k2 = position_of_choice(choices, &selected[i2]);
        if k2 == key {
            same = true;
        }
        i2 = i2 + 1;
    }
    if same {
        let mut r: Vec<String> = Vec::new();
        append_names(&mut r, selected);
        proof {
            assert(r@ =~= selected@);
        }
        return r;
    }
    let mut p: usize = 0;
    while p < n
        invariant
            n == selected@.len(),
            p <= n,
            choices@.len() < i64::MAX,
            key == choice_key(choices@, value@),
            insert_position(selected@, choices@, key as int, p as int) == insert_position(selected@, choices@, key as int, 0),
        ensures
            p <= n,
            p == insert_position(selected@, choices@, key as int, 0),
        decreases n - p,
    {
        if position_of_choice(choices, &selected[p]) > key {
            break;
        }
        p = p + 1;
    }
    proof {
        lemma_insert_position(selected@, choices@, key as int, 0);
    }
    let mut r: Vec<String> = Vec::new();
    append_names(&mut r, selected);
    proof {
        assert(r@ =~= selected@);
    }
    r.insert(p, value);
    r
}

} // verus!
