//! Presets and their settings: names kept in the order of names, and settings looked up and set
//! by name.

use vstd::prelude::*;

verus! {

/// The settings of a preset: each setting's name with its value.
pub type Settings<V> = Vec<(String, V)>;

/// The first position in `presets` from `i` on of the preset named `name`, or their number.
pub open spec fn name_position<P>(presets: Seq<(String, P)>, name: Seq<char>, i: int) -> int
    decreases presets.len() - i,
{
    if i < 0 || i >= presets.len() {
        presets.len() as int
    } else if presets[i].0@ == name {
        i
    } else {
        name_position(presets, name, i + 1)
    }
}

pub proof fn lemma_name_position<P>(presets: Seq<(String, P)>, name: Seq<char>, i: int)
    requires
        0 <= i <= presets.len(),
    ensures
        i <= name_position(presets, name, i) <= presets.len(),
        name_position(presets, name, i) < presets.len() ==> presets[name_position(presets, name, i)].0@ == name,
        forall|k: int| i <= k < name_position(presets, name, i) ==> (#[trigger] presets[k]).0@ != name,
    decreases presets.len() - i,
{
    if i < presets.len() && presets[i].0@ != name {
        lemma_name_position(presets, name, i + 1);
    }
}

/// No two presets have the same name.
pub open spec fn names_unique<P>(presets: Seq<(String, P)>) -> bool {
    forall|i: int, j: int| 0 <= i < j < presets.len() ==> presets[i].0@ != presets[j].0@
}

pub fn find_named<P>(presets: &Vec<(String, P)>, name: &String) -> (r: usize)
    ensures
        r == name_position(presets@, name@, 0),
{
    let mut k: usize = 0;
    while k < presets.len()
        invariant
            k <= presets@.len(),
            name_position(presets@, name@, k as int) == name_position(presets@, name@, 0),
        decreases presets@.len() - k,
    {
        if presets[k].0 == *name {
            return k;
        }
        k = k + 1;
    }
    k
}

/// `a` comes before `b` in the order of names: at the first place where they differ, the
/// character of `a` is the smaller one, or `a` ends there and `b` goes on.
pub open spec fn name_before(a: Seq<char>, b: Seq<char>) -> bool
    decreases a.len(),
{
    if a.len() == 0 {
        b.len() > 0
    } else if b.len() == 0 {
        false
    } else if a[0] != b[0] {
        (a[0] as int) < (b[0] as int)
    } else {
        name_before(a.drop_first(), b.drop_first())
    }
}

/// No name comes before itself.
pub proof fn lemma_name_before_irreflexive(a: Seq<char>)
    ensures
        !name_before(a, a),
    decreases a.len(),
{
    if a.len() > 0 {
        lemma_name_before_irreflexive(a.drop_first());
    }
}

/// Of two different names, one comes before the other, and not both.
pub proof fn lemma_name_before_total(a: Seq<char>, b: Seq<char>)
    ensures
        a != b ==> (name_before(a, b) || name_before(b, a)),
        !(name_before(a, b) && name_before(b, a)),
    decreases a.len(),
{
    if a.len() > 0 && b.len() > 0 {
        lemma_name_before_total(a.drop_first(), b.drop_first());
        if a[0] == b[0] && a != b {
            assert(a.drop_first() != b.drop_first()) by {
                if a.drop_first() == b.drop_first() {
                    assert(a =~= seq![a[0]] + a.drop_first());
                    assert(b =~= seq![b[0]] + b.drop_first());
                }
            }
        }
    } else if a.len() == 0 && b.len() == 0 {
        assert(a =~= b);
    }
}

/// The order of names is transitive.
pub proof fn lemma_name_before_transitive(a: Seq<char>, b: Seq<char>, c: Seq<char>)
    requires
        name_before(a, b),
        name_before(b, c),
    ensures
        name_before(a, c),
    decreases a.len(),
{
    if a.len() > 0 && b.len() > 0 && c.len() > 0 {
        if a[0] == b[0] && b[0] == c[0] {
            lemma_name_before_transitive(a.drop_first(), b.drop_first(), c.drop_first());
        }
    }
}

/// The presets' names come in the order of names, each before the next.
pub open spec fn names_ascending<P>(presets: Seq<(String, P)>) -> bool {
    forall|i: int, j: int| 0 <= i < j < presets.len() ==> name_before(presets[i].0@, presets[j].0@)
}

/// Names in the order of names are all different.
pub proof fn lemma_ascending_unique<P>(presets: Seq<(String, P)>)
    requires
        names_ascending(presets),
    ensures
        names_unique(presets),
{
    assert forall|i: int, j: int| 0 <= i < j < presets.len() implies presets[i].0@ != presets[j].0@ by {
        lemma_name_before_irreflexive(presets[i].0@);
    }
}

/// Whether `a` comes before `b` in the order of names.
pub fn comes_before(a: &String, b: &String) -> (r: bool)
    ensures
        r == name_before(a@, b@),
{
    let sa = a.as_str();
    let sb = b.as_str();
    let na = sa.unicode_len();
    let nb = sb.unicode_len();
    let mut i: usize = 0;
    assert(a@.skip(0) =~= a@ && b@.skip(0) =~= b@);
    while i < na && i < nb
        invariant
            na == a@.len(),
            nb == b@.len(),
            sa@ == a@,
            sb@ == b@,
            i <= na,
            i <= nb,
            name_before(a@.skip(i as int), b@.skip(i as int)) == name_before(a@, b@),
        decreases na - i,
    {
        let ca = sa.get_char(i);
        let cb = sb.get_char(i);
        assert(a@.skip(i as int)[0] == ca && b@.skip(i as int)[0] == cb);
        if ca != cb {
            return (ca as u32) < (cb as u32);
        }
        assert(a@.skip(i as int).drop_first() =~= a@.skip(i + 1));
        assert(b@.skip(i as int).drop_first() =~= b@.skip(i + 1));
        i = i + 1;
    }
    i < nb
}

/// The first position in `presets` from `i` on whose name does not come before `name`, or
/// their number: where a preset named `name` stands, or would be put, among presets in the
/// order of names.
pub open spec fn sorted_position<P>(presets: Seq<(String, P)>, name: Seq<char>, i: int) -> int
    decreases presets.len() - i,
{
    if i < 0 || i >= presets.len() {
        presets.len() as int
    } else if !name_before(presets[i].0@, name) {
        i
    } else {
        sorted_position(presets, name, i + 1)
    }
}

pub proof fn lemma_sorted_position<P>(presets: Seq<(String, P)>, name: Seq<char>, i: int)
    requires
        0 <= i <= presets.len(),
    ensures
        i <= sorted_position(presets, name, i) <= presets.len(),
        sorted_position(presets, name, i) < presets.len() ==> !name_before(
            presets[sorted_position(presets, name, i)].0@,
            name,
        ),
        forall|k: int| i <= k < sorted_position(presets, name, i) ==> name_before((#[trigger] presets[k]).0@, name),
    decreases presets.len() - i,
{
    if i < presets.len() && name_before(presets[i].0@, name) {
        lemma_sorted_position(presets, name, i + 1);
    }
}

/// Where a preset named `name` stands, or would be put, among presets in the order of names.
pub fn find_sorted<P>(presets: &Vec<(String, P)>, name: &String) -> (r: usize)
    ensures
        r == sorted_position(presets@, name@, 0),
{
    let mut k: usize = 0;
    while k < presets.len()
        invariant
            k <= presets@.len(),
            sorted_position(presets@, name@, k as int) == sorted_position(presets@, name@, 0),
        decreases presets@.len() - k,
    {
        if !comes_before(&presets[k].0, name) {
            return k;
        }
        k = k + 1;
    }
    k
}

/// Presets in the order of names with the preset named `name` set to `value`: it replaces the
/// settings of a preset of that name, or is put where its name belongs.
pub open spec fn put_preset<P>(presets: Seq<(String, P)>, name: String, value: P) -> Seq<(String, P)> {
    let p = sorted_position(presets, name@, 0);
    if p < presets.len() && presets[p].0@ == name@ {
        presets.update(p, (presets[p].0, value))
    } else {
        presets.insert(p, (name, value))
    }
}

/// Putting a preset keeps the presets in the order of names.
pub proof fn lemma_put_preset_ascending<P>(presets: Seq<(String, P)>, name: String, value: P)
    requires
        names_ascending(presets),
    ensures
        names_ascending(put_preset(presets, name, value)),
{
    lemma_sorted_position(presets, name@, 0);
    let p = sorted_position(presets, name@, 0);
    let r = put_preset(presets, name, value);
    if p < presets.len() && presets[p].0@ == name@ {
        assert forall|i: int, j: int| 0 <= i < j < r.len() implies name_before(r[i].0@, r[j].0@) by {
            assert(r[i].0 == presets[i].0 && r[j].0 == presets[j].0);
        }
    } else {
        if p < presets.len() {
            lemma_name_before_total(presets[p].0@, name@);
        }
        assert forall|i: int, j: int| 0 <= i < j < r.len() implies name_before(r[i].0@, r[j].0@) by {
            if j < p {
                assert(r[i] == presets[i] && r[j] == presets[j]);
            } else if j == p {
                assert(r[i] == presets[i]);
            } else if i < p {
                assert(r[i] == presets[i] && r[j] == presets[j - 1]);
                assert(name_before(presets[i].0@, name@));
                assert(name_before(name@, presets[p].0@));
                if j - 1 > p {
                    lemma_name_before_transitive(name@, presets[p].0@, presets[j - 1].0@);
                }
                lemma_name_before_transitive(presets[i].0@, name@, presets[j - 1].0@);
            } else if i == p {
                assert(r[j] == presets[j - 1]);
                if j - 1 > p {
                    lemma_name_before_transitive(name@, presets[p].0@, presets[j - 1].0@);
                }
            } else {
                assert(r[i] == presets[i - 1] && r[j] == presets[j - 1]);
            }
        }
    }
}

/// The value of each setting named in `settings`: that of its first occurrence.
pub open spec fn settings_map<V>(settings: Seq<(String, V)>) -> Map<Seq<char>, V> {
    Map::new(
        |k: Seq<char>| name_position(settings, k, 0) < settings.len(),
        |k: Seq<char>| settings[name_position(settings, k, 0)].1,
    )
}

/// `settings` with the setting `name` set to `value`: it replaces the value of a setting of
/// that name, or is added at the end.
pub open spec fn set_setting_spec<V>(settings: Seq<(String, V)>, name: String, value: V) -> Seq<(String, V)> {
    let k = name_position(settings, name@, 0);
    if k < settings.len() {
        settings.update(k, (settings[k].0, value))
    } else {
        settings.push((name, value))
    }
}

/// Setting a setting changes its value and no other: the settings then map the name to the new
/// value and every other name as before.
pub proof fn law_set_setting_inserts<V>(settings: Seq<(String, V)>, name: String, value: V)
    ensures
        settings_map(set_setting_spec(settings, name, value)) == settings_map(settings).insert(name@, value),
{
    let r = set_setting_spec(settings, name, value);
    let k = name_position(settings, name@, 0);
    lemma_name_position(settings, name@, 0);
    assert forall|key: Seq<char>|
        #![trigger name_position(r, key, 0)]
        {
            let a = name_position(settings, key, 0);
            let b = name_position(r, key, 0);
            &&& key == name@ ==> b < r.len() && r[b].1 == value
            &&& key != name@ ==> (b < r.len() <==> a < settings.len())
            &&& key != name@ && a < settings.len() ==> b == a && r[b].1 == settings[a].1
        } by {
        lemma_name_position(settings, key, 0);
        lemma_name_position(r, key, 0);
        let a = name_position(settings, key, 0);
        let b = name_position(r, key, 0);
        assert(forall|i: int| 0 <= i < settings.len() ==> (#[trigger] r[i]).0@ == settings[i].0@);
        if key == name@ {
            if k < settings.len() {
                if b < k {
                    assert(r[b].0@ == settings[b].0@);
                }
                if k < b {
                    assert(r[k].0@ == name@);
                }
            } else {
                assert(r[settings.len() as int].0@ == name@);
                if b < settings.len() {
                    assert(r[b].0@ == settings[b].0@);
                }
            }
        } else {
            if b < a && b < settings.len() {
                assert(r[b].0@ == settings[b].0@);
            }
            if a < b && a < settings.len() {
                assert(r[a].0@ == settings[a].0@);
            }
            if b == settings.len() && b < r.len() {
                assert(r[b].0@ == name@);
            }
        }
    }
    assert(settings_map(r) =~= settings_map(settings).insert(name@, value));
}

/// Sets the setting `name` of `settings` to `value`.
pub fn set_setting<V>(settings: &mut Vec<(String, V)>, name: String, value: V)
    ensures
        final(settings)@ == set_setting_spec(old(settings)@, name, value),
        settings_map(final(settings)@) == settings_map(old(settings)@).insert(name@, value),
{
    proof {
        law_set_setting_inserts(settings@, name, value);
    }
    let ghost s0 = settings@;
    let k = find_named(settings, &name);
    if k < settings.len() {
        let (n, _) = settings.remove(k);
        settings.insert(k, (n, value));
        proof {
            assert(settings@ =~= s0.update(k as int, (s0[k as int].0, value)));
        }
    } else {
        settings.push((name, value));
    }
}

} // verus!
