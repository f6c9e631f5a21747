//! The decisions of the graphical user interface: which windows are open, what is asked before
//! one closes while a seed has unsaved files, and what each answer leads to.
//!
//! The interface itself (widgets, dialogs, files) performs what these functions decide.

use vstd::prelude::*;
use crate::generator::{Seed, patch_files, num_patch_files, decimal, decimal_string, ATTEMPTS};
use crate::lang::{Language, spec_join, spec_setting_value, views};
use crate::presets::{
    name_before,
    Settings, name_position, lemma_name_position, find_named, names_ascending,
    sorted_position, lemma_sorted_position, find_sorted, put_preset, lemma_put_preset_ascending,
    set_setting_spec, settings_map, set_setting,
};

verus! {

/// A question asked before a window closes while a seed still has unsaved files.
pub enum CloseQuestion {
    /// The patch files of these worlds (numbered from 1) are unsaved.
    SavePatches { window_to_close: u64, window_to_check: u64, unsaved_worlds: Vec<u8> },
    /// The spoiler log is unsaved.
    SaveSpoiler { window_to_close: u64, window_to_check: u64 },
}

/// The numbers (counting from 1) of the worlds among the first `n` whose patch file is
/// unsaved, in increasing order.
pub open spec fn unsaved_upto(saved: Seq<bool>, n: int) -> Seq<u8>
    decreases n,
{
    if n <= 0 {
        Seq::empty()
    } else if saved[n - 1] {
        unsaved_upto(saved, n - 1)
    } else {
        unsaved_upto(saved, n - 1).push(n as u8)
    }
}

/// The numbers (counting from 1) of the worlds whose patch file is unsaved.
pub open spec fn unsaved_worlds(saved: Seq<bool>) -> Seq<u8> {
    unsaved_upto(saved, saved.len() as int)
}

/// Every unsaved world's number fits in a byte.
pub open spec fn worlds_numberable(saved: Seq<bool>) -> bool {
    forall|i: int| 0 <= i < saved.len() && !saved[i] ==> i < 255
}

/// No world is listed as unsaved exactly when every patch file is saved.
pub proof fn lemma_unsaved_empty(saved: Seq<bool>, n: int)
    requires
        0 <= n <= saved.len(),
    ensures
        unsaved_upto(saved, n).len() == 0 <==> forall|i: int| 0 <= i < n ==> saved[i],
    decreases n,
{
    if n > 0 {
        lemma_unsaved_empty(saved, n - 1);
    }
}

/// The question to ask, if any, before `window_to_close` closes, about the seed shown in
/// `window_to_check` whose patch files are saved as in `saved` and whose spoiler log is saved
/// exactly when `spoiler_saved`: first the patch files, then the spoiler log.
pub open spec fn is_close_question(
    saved: Seq<bool>,
    spoiler_saved: bool,
    window_to_close: u64,
    window_to_check: u64,
    q: Option<CloseQuestion>,
) -> bool {
    match q {
        None => unsaved_worlds(saved).len() == 0 && spoiler_saved,
        Some(CloseQuestion::SavePatches { window_to_close: c, window_to_check: k, unsaved_worlds: u }) => {
            &&& c == window_to_close
            &&& k == window_to_check
            &&& unsaved_worlds(saved).len() > 0
            &&& u@ == unsaved_worlds(saved)
        },
        Some(CloseQuestion::SaveSpoiler { window_to_close: c, window_to_check: k }) => {
            &&& c == window_to_close
            &&& k == window_to_check
            &&& unsaved_worlds(saved).len() == 0
            &&& !spoiler_saved
        },
    }
}

/// A seed that has just been generated asks about every one of its worlds, in order.
pub proof fn law_fresh_seed_lists_all_worlds(n: nat)
    requires
        n <= 255,
    ensures
        unsaved_worlds(Seq::new(n, |i: int| false)) == Seq::new(n, |i: int| (i + 1) as u8),
{
    lemma_fresh_prefix(n, n as int);
}

/// The worlds listed among the first `k` of a fresh seed are `1 ..= k`.
proof fn lemma_fresh_prefix(n: nat, k: int)
    requires
        0 <= k <= n <= 255,
    ensures
        unsaved_upto(Seq::new(n, |i: int| false), k) == Seq::new(k as nat, |i: int| (i + 1) as u8),
    decreases k,
{
    if k > 0 {
        lemma_fresh_prefix(n, k - 1);
        assert(unsaved_upto(Seq::new(n, |i: int| false), k) =~= Seq::new(k as nat, |i: int| (i + 1) as u8));
    }
}

/// Once every patch file of a seed is saved, none of its worlds is asked about.
pub proof fn law_saved_patches_not_asked(n: nat)
    ensures
        unsaved_worlds(Seq::new(n, |i: int| true)).len() == 0,
{
    lemma_unsaved_empty(Seq::new(n, |i: int| true), n as int);
}

/// A world is listed as unsaved exactly when its patch file is unsaved.
pub proof fn law_unsaved_worlds_are_the_unsaved(saved: Seq<bool>, k: int)
    requires
        worlds_numberable(saved),
        0 <= k < saved.len(),
        k < 255,
    ensures
        unsaved_worlds(saved).contains((k + 1) as u8) <==> !saved[k],
{
    lemma_unsaved_members(saved, saved.len() as int, k);
}

/// The worlds listed among the first `n` are those below `n` whose file is unsaved.
proof fn lemma_unsaved_members(saved: Seq<bool>, n: int, k: int)
    requires
        worlds_numberable(saved),
        0 <= n <= saved.len(),
        0 <= k < saved.len(),
        k < 255,
    ensures
        unsaved_upto(saved, n).contains((k + 1) as u8) <==> (k < n && !saved[k]),
        forall|j: int| 0 <= j < unsaved_upto(saved, n).len() ==> 1 <= #[trigger] unsaved_upto(saved, n)[j] <= n,
    decreases n,
{
    if n > 0 {
        lemma_unsaved_members(saved, n - 1, k);
        let prev = unsaved_upto(saved, n - 1);
        if !saved[n - 1] {
            assert(n - 1 < 255);
            let cur = prev.push(n as u8);
            assert(cur[cur.len() - 1] == n as u8);
            if k == n - 1 {
                assert(cur.contains((k + 1) as u8));
            } else if cur.contains((k + 1) as u8) {
                let j = choose|j: int| 0 <= j < cur.len() && cur[j] == (k + 1) as u8;
                if j < prev.len() {
                    assert(prev[j] == cur[j]);
                    assert(prev.contains((k + 1) as u8));
                } else if k < 255 {
                    assert((k + 1) as u8 == k + 1);
                }
            }
            if k < n - 1 && !saved[k] {
                let j = choose|j: int| 0 <= j < prev.len() && prev[j] == (k + 1) as u8;
                assert(cur[j] == prev[j]);
            }
            assert forall|j: int| 0 <= j < cur.len() implies 1 <= #[trigger] cur[j] <= n by {
                if j < prev.len() {
                    assert(cur[j] == prev[j]);
                }
            }
        } else {
            if k == n - 1 && prev.contains((k + 1) as u8) {
                let j = choose|j: int| 0 <= j < prev.len() && prev[j] == (k + 1) as u8;
                assert(1 <= prev[j] <= n - 1);
                if k < 255 {
                    assert((k + 1) as u8 == k + 1);
                }
            }
        }
    }
}

/// Quitting is decided only when no seed window has unsaved files: when no seed window asks,
/// every seed's patch files and spoiler log are saved.
pub proof fn law_exit_only_when_saved<E>(ws: Seq<(u64, WindowState<E>)>)
    requires
        first_from(ws, asks(), 0) == ws.len(),
    ensures
        forall|i: int| 0 <= i < ws.len() ==> (#[trigger] ws[i].1 matches WindowState::Seed(s) ==> (
            unsaved_worlds(s.saved()).len() == 0 && s.spoiler_saved())),
{
    lemma_first_bounds(ws, asks(), 0);
    assert forall|i: int| 0 <= i < ws.len() implies (#[trigger] ws[i].1 matches WindowState::Seed(s) ==> (
        unsaved_worlds(s.saved()).len() == 0 && s.spoiler_saved())) by {
        assert(!asks()(ws[i]));
    }
}

/// A window showing a generated seed, with which of its files have been saved.
pub struct SeedWindow {
    inner: Seed,
    patches_saved: Vec<bool>,
    spoiler_log_saved: bool,
}

impl SeedWindow {
    #[verifier::type_invariant]
    spec fn inv(self) -> bool {
        &&& self.patches_saved@.len() == patch_files(self.inner.patches).len()
        &&& self.patches_saved@.len() >= 1
    }

    /// The seed shown.
    pub closed spec fn spec_seed(self) -> Seed {
        self.inner
    }

    /// For each world, whether its patch file has been saved.
    pub closed spec fn saved(self) -> Seq<bool> {
        self.patches_saved@
    }

    /// Whether the spoiler log has been saved.
    pub closed spec fn spoiler_saved(self) -> bool {
        self.spoiler_log_saved
    }

    /// Whether closing would ask about this seed.
    pub open spec fn needs_question(self) -> bool {
        unsaved_worlds(self.saved()).len() > 0 || !self.spoiler_saved()
    }

    /// A window for a freshly generated seed, with nothing saved yet.
    pub fn new(seed: Seed) -> (w: Self)
        ensures
            w.spec_seed() == seed,
            w.saved() == Seq::new(patch_files(seed.patches).len(), |i: int| false),
            !w.spoiler_saved(),
    {
        let n = num_patch_files(&seed.patches);
        let mut saved: Vec<bool> = Vec::new();
        let mut i: usize = 0;
        while i < n
            invariant
                i <= n,
                saved@ == Seq::new(i as nat, |j: int| false),
            decreases n - i,
        {
            saved.push(false);
            i = i + 1;
            proof {
                assert(saved@ =~= Seq::new(i as nat, |j: int| false));
            }
        }
        SeedWindow { inner: seed, patches_saved: saved, spoiler_log_saved: false }
    }

    /// The seed shown.
    pub fn seed(&self) -> (r: &Seed)
        ensures
            *r == self.spec_seed(),
    {
        &self.inner
    }

    /// The number of worlds, each with its own patch file.
    pub fn num_worlds(&self) -> (r: usize)
        ensures
            r == self.saved().len(),
            r >= 1,
            r == patch_files(self.spec_seed().patches).len(),
    {
        proof {
            use_type_invariant(self);
        }
        self.patches_saved.len()
    }

    /// The question to ask before `window_to_close` closes, if this seed, shown in
    /// `window_to_check`, has unsaved files: the worlds whose patch file is unsaved, or else
    /// the spoiler log if it is unsaved.
    pub fn before_close_message(&self, window_to_close: u64, window_to_check: u64) -> (r: Option<
        CloseQuestion,
    >)
        requires
            worlds_numberable(self.saved()),
        ensures
            is_close_question(self.saved(), self.spoiler_saved(), window_to_close, window_to_check, r),
    {
        let mut unsaved: Vec<u8> = Vec::new();
        let mut i: usize = 0;
        let n = self.patches_saved.len();
        while i < n
            invariant
                i <= n == self.saved().len(),
                worlds_numberable(self.saved()),
                unsaved@ == unsaved_upto(self.saved(), i as int),
            decreases n - i,
        {
            if !self.patches_saved[i] {
                unsaved.push((i + 1) as u8);
            }
            i = i + 1;
        }
        if unsaved.len() > 0 {
            return Some(CloseQuestion::SavePatches { window_to_close, window_to_check, unsaved_worlds: unsaved });
        }
        if !self.spoiler_log_saved {
            return Some(CloseQuestion::SaveSpoiler { window_to_close, window_to_check });
        }
        None
    }

    /// Marks every patch file as saved.
    pub fn mark_patches_saved(&mut self)
        ensures
            final(self).spec_seed() == old(self).spec_seed(),
            final(self).spoiler_saved() == old(self).spoiler_saved(),
            final(self).saved() == Seq::new(old(self).saved().len(), |i: int| true),
    {
        proof {
            use_type_invariant(&*self);
        }
        let n = self.patches_saved.len();
        let mut saved: Vec<bool> = Vec::new();
        let mut i: usize = 0;
        while i < n
            invariant
                i <= n,
                saved@ == Seq::new(i as nat, |j: int| true),
            decreases n - i,
        {
            saved.push(true);
            i = i + 1;
            proof {
                assert(saved@ =~= Seq::new(i as nat, |j: int| true));
            }
        }
        self.patches_saved = saved;
    }

    /// Marks the spoiler log as saved.
    pub fn mark_spoiler_saved(&mut self)
        ensures
            final(self).spec_seed() == old(self).spec_seed(),
            final(self).saved() == old(self).saved(),
            final(self).spoiler_saved(),
    {
        proof {
            use_type_invariant(&*self);
        }
        self.spoiler_log_saved = true;
    }
}

/// What a window shows. `E` is the error a failed generation reports.
pub enum WindowState<E> {
    /// The main window: languages, base roms, presets, and the button that generates a seed.
    Main,
    /// The editor of a custom preset, showing one tab of its settings.
    Preset { preset_name: String, active_tab: String },
    /// A seed being generated: how far (a numerator and a denominator) and the current step.
    Generator { progress: (usize, usize), display: String },
    /// A generated seed.
    Seed(SeedWindow),
    /// Why generating a seed failed.
    RollError(E),
}

/// Window identifiers occur at most once.
pub open spec fn ids_unique<T>(ws: Seq<(u64, T)>) -> bool {
    forall|i: int, j: int| 0 <= i < j < ws.len() ==> ws[i].0 != ws[j].0
}

/// Whether some window has identifier `id`.
pub open spec fn has_id<T>(ws: Seq<(u64, T)>, id: u64) -> bool {
    exists|i: int| 0 <= i < ws.len() && ws[i].0 == id
}

/// Where the window with identifier `id` stands.
pub open spec fn position<T>(ws: Seq<(u64, T)>, id: u64) -> int {
    choose|i: int| 0 <= i < ws.len() && ws[i].0 == id
}

/// With unique identifiers, the window at `i` is the one `position` finds.
pub proof fn lemma_position<T>(ws: Seq<(u64, T)>, i: int)
    requires
        ids_unique(ws),
        0 <= i < ws.len(),
    ensures
        has_id(ws, ws[i].0),
        position(ws, ws[i].0) == i,
{
    let id = ws[i].0;
    assert(0 <= i < ws.len() && ws[i].0 == id);
    let j = position(ws, id);
    assert(0 <= j < ws.len() && ws[j].0 == id);
    if j < i {
        assert(ws[j].0 != ws[i].0);
    } else if i < j {
        assert(ws[i].0 != ws[j].0);
    }
}

/// Removing a window keeps the identifiers unique.
pub proof fn lemma_remove_unique<T>(ws: Seq<(u64, T)>, i: int)
    requires
        ids_unique(ws),
        0 <= i < ws.len(),
    ensures
        ids_unique(ws.remove(i)),
{
    let r = ws.remove(i);
    assert forall|a: int, b: int| 0 <= a < b < r.len() implies r[a].0 != r[b].0 by {
        let a2 = if a < i { a } else { a + 1 };
        let b2 = if b < i { b } else { b + 1 };
        assert(r[a] == ws[a2]);
        assert(r[b] == ws[b2]);
    }
}

/// Replacing the state of a window keeps the identifiers unique.
pub proof fn lemma_update_unique<T>(ws: Seq<(u64, T)>, i: int, t: T)
    requires
        ids_unique(ws),
        0 <= i < ws.len(),
    ensures
        ids_unique(ws.update(i, (ws[i].0, t))),
{
    let r = ws.update(i, (ws[i].0, t));
    assert forall|a: int, b: int| 0 <= a < b < r.len() implies r[a].0 != r[b].0 by {
        assert(r[a].0 == ws[a].0);
        assert(r[b].0 == ws[b].0);
    }
}

/// The first position at or after `i` whose item satisfies `p`, or the length of `s` if none
/// does.
pub open spec fn first_from<T>(s: Seq<T>, p: spec_fn(T) -> bool, i: int) -> int
    decreases s.len() - i,
{
    if i >= s.len() {
        s.len() as int
    } else if p(s[i]) {
        i
    } else {
        first_from(s, p, i + 1)
    }
}

/// Skipping items that do not satisfy `p` does not change the first one that does.
pub proof fn lemma_first_skip<T>(s: Seq<T>, p: spec_fn(T) -> bool, a: int, b: int)
    requires
        0 <= a <= b <= s.len(),
        forall|k: int| a <= k < b ==> !p(#[trigger] s[k]),
    ensures
        first_from(s, p, a) == first_from(s, p, b),
    decreases b - a,
{
    if a < b {
        lemma_first_skip(s, p, a + 1, b);
    }
}

/// The first position satisfying `p` does, and none before it does.
pub proof fn lemma_first_bounds<T>(s: Seq<T>, p: spec_fn(T) -> bool, i: int)
    requires
        0 <= i <= s.len(),
    ensures
        i <= first_from(s, p, i) <= s.len(),
        first_from(s, p, i) < s.len() ==> p(s[first_from(s, p, i)]),
        forall|k: int| i <= k < first_from(s, p, i) ==> !p(#[trigger] s[k]),
    decreases s.len() - i,
{
    if i < s.len() && !p(s[i]) {
        lemma_first_bounds(s, p, i + 1);
    }
}

/// A window showing a seed with unsaved files.
pub open spec fn asks<E>() -> spec_fn((u64, WindowState<E>)) -> bool {
    |w: (u64, WindowState<E>)| w.1 matches WindowState::Seed(s) && s.needs_question()
}

/// A window editing the preset named `name`.
pub open spec fn edits<E>(name: Seq<char>) -> spec_fn((u64, WindowState<E>)) -> bool {
    |w: (u64, WindowState<E>)| w.1 matches WindowState::Preset { preset_name, .. } && preset_name@ == name
}

/// What the interface does after a request to close a window.
pub enum CloseAction {
    /// Ask this question first; nothing closes yet.
    Ask(CloseQuestion),
    /// Quit the application.
    Exit,
    /// Close this window, which has been forgotten.
    Close(u64),
}

/// How the user answered a question about unsaved files.
#[derive(Debug, Clone, Copy, PartialEq, Eq, Structural)]
pub enum Answer {
    Save,
    Delete,
    Cancel,
}

/// What the interface does after the user answered a question about unsaved files.
pub enum AnswerAction {
    /// Show the dialog that saves the files of the seed in `window_to_check`; once they are
    /// saved, mark them so and request again to close `window_to_close`.
    Save { window_to_close: u64, window_to_check: u64 },
    /// Close `window`, which has been forgotten, then request to close `then_close` if set.
    Close { window: u64, then_close: Option<u64> },
    /// Nothing.
    Nothing,
}


/// A path to a base rom as the user gave it.
pub enum RomPath {
    /// A path in Unicode; empty when none was given.
    Unicode(String),
    /// A path that is not valid Unicode.
    NotUnicode,
}

/// Why the settings of a seed could not be made.
#[derive(Debug, Clone, Copy, PartialEq, Eq, Structural)]
pub enum PathError {
    /// A path of a base rom is not valid Unicode.
    NotUnicode,
}

/// Whether a path was given at all.
pub open spec fn given(p: RomPath) -> bool {
    !(p matches RomPath::Unicode(s) && s@.len() == 0)
}

fn is_given(p: &RomPath) -> (r: bool)
    ensures
        r == given(*p),
{
    match p {
        RomPath::Unicode(s) => !s.as_str().is_empty(),
        RomPath::NotUnicode => true,
    }
}

/// The setting `key` for a base rom path: none if no path was given, and `None` if the path is
/// not Unicode.
pub open spec fn rom_setting(key: Seq<char>, p: RomPath) -> Option<Seq<(Seq<char>, Seq<char>)>> {
    match p {
        RomPath::Unicode(s) => if s@.len() == 0 {
            Some(Seq::empty())
        } else {
            Some(seq![(key, s@)])
        },
        RomPath::NotUnicode => None,
    }
}

/// The settings generating a seed sets on top of the preset, or `None` if a path to use is not
/// Unicode.
pub open spec fn spec_overrides(lang: Language, base_rom: RomPath, pal_rom: RomPath) -> Option<Seq<(Seq<char>, Seq<char>)>> {
    let l = seq![("language"@, spec_setting_value(lang))];
    match rom_setting("rom"@, base_rom) {
        None => None,
        Some(b) => if lang == Language::English {
            Some(l + b)
        } else {
            match rom_setting("pal_rom"@, pal_rom) {
                None => None,
                Some(p) => Some(l + b + p),
            }
        },
    }
}

/// The views of pairs of strings.
pub open spec fn pair_views(v: Seq<(String, String)>) -> Seq<(Seq<char>, Seq<char>)> {
    v.map_values(|p: (String, String)| (p.0@, p.1@))
}

/// Adds the setting `key` for the rom path `p`; false if the path is not Unicode.
fn push_rom_setting(v: &mut Vec<(String, String)>, key: &str, p: &RomPath) -> (ok: bool)
    ensures
        ok <==> rom_setting(key@, *p) is Some,
        ok ==> pair_views(final(v)@) == pair_views(old(v)@) + rom_setting(key@, *p)->0,
{
    match p {
        RomPath::Unicode(s) => {
            if !s.as_str().is_empty() {
                v.push((String::from_str(key), s.clone()));
                proof {
                    assert(pair_views(v@) =~= pair_views(old(v)@) + seq![(key@, s@)]);
                }
            } else {
                proof {
                    assert(pair_views(v@) =~= pair_views(old(v)@) + Seq::<(Seq<char>, Seq<char>)>::empty());
                }
            }
            true
        },
        RomPath::NotUnicode => false,
    }
}

/// The decimal names of worlds.
pub open spec fn world_names(worlds: Seq<u8>) -> Seq<Seq<char>> {
    worlds.map_values(|w: u8| decimal(w as nat))
}

/// The question asked about unsaved patch files: whether to keep the seed, and, unless `all`
/// its worlds are unsaved, which of them are.
pub open spec fn keep_question(all: bool, worlds: Seq<u8>) -> Seq<char> {
    if all {
        "Do you want to keep this seed?"@
    } else {
        "Do you want to keep this seed? You haven't saved world"@ + (if worlds.len() == 1 {
            ""@
        } else {
            "s"@
        }) + " "@ + spec_join(Language::English, world_names(worlds)) + "."@
    }
}

/// The name of the `copy_idx`-th copy of the preset `name` (counting from 1).
pub fn copy_name(copy_idx: usize, name: &str) -> (r: String)
    ensures
        r@ == if copy_idx == 1 {
            "Copy of "@ + name@
        } else {
            "Copy "@ + decimal(copy_idx as nat) + " of "@ + name@
        },
{
    if copy_idx == 1 {
        let mut s = String::from_str("Copy of ");
        s.append(name);
        s
    } else {
        let mut s = String::from_str("Copy ");
        let d = decimal_string(copy_idx);
        s.append(d.as_str());
        s.append(" of ");
        s.append(name);
        s
    }
}

/// The name, in an archive of patch files, of the file of world `world_idx` (counting from 0):
/// `P` and the world's number counting from 1.
pub fn archive_entry_name(world_idx: usize) -> (r: String)
    requires
        world_idx < 255,
    ensures
        r@ == "P"@ + decimal((world_idx + 1) as nat),
{
    let mut s = String::from_str("P");
    let d = decimal_string(world_idx + 1);
    s.append(d.as_str());
    s
}

/// The description and the extension of the file that holds the patch files of a seed with
/// `num_worlds` worlds: a patch file for one world, an archive of them for several.
pub fn patch_file_filter(num_worlds: usize) -> (r: (&'static str, &'static str))
    ensures
        num_worlds == 1 ==> r.0@ == "Ocarina of Time randomizer patch file"@ && r.1@ == "zpf"@,
        num_worlds != 1 ==> r.0@ == "Ocarina of Time randomizer patch file archive"@ && r.1@ == "zpfz"@,
{
    if num_worlds == 1 {
        ("Ocarina of Time randomizer patch file", "zpf")
    } else {
        ("Ocarina of Time randomizer patch file archive", "zpfz")
    }
}

/// The label of the button that saves the patch files of a seed with `num_worlds` worlds.
pub fn save_patches_label(num_worlds: usize) -> (r: &'static str)
    ensures
        num_worlds == 1 ==> r@ == "Save patch file"@,
        num_worlds != 1 ==> r@ == "Save patch file archive"@,
{
    if num_worlds == 1 {
        "Save patch file"
    } else {
        "Save patch file archive"
    }
}

/// The hint in an empty base rom field: whether a cached rom is used instead.
pub fn rom_placeholder(has_cached_rom: bool) -> (r: &'static str)
    ensures
        has_cached_rom ==> r@ == "Using cached rom"@,
        !has_cached_rom ==> r@ == "Required"@,
{
    if has_cached_rom {
        "Using cached rom"
    } else {
        "Required"
    }
}

/// The end of the file name of a custom preset.
pub open spec fn preset_suffix() -> Seq<char> {
    seq!['.', 'c', 'u', 's', 't', 'o', 'm', '.', 'j', 's', 'o', 'n']
}

/// `s` with each `from` replaced by `to`.
pub open spec fn replaced_chars(s: Seq<char>, from: char, to: char) -> Seq<char> {
    s.map_values(|c: char| if c == from { to } else { c })
}

/// `s` with each `from` replaced by `to`.
fn replace_chars(s: &[char], from: char, to: char) -> (r: Vec<char>)
    ensures
        r@ == replaced_chars(s@, from, to),
{
    let mut v: Vec<char> = Vec::new();
    let mut k: usize = 0;
    while k < s.len()
        invariant
            k <= s@.len(),
            v@ == replaced_chars(s@.subrange(0, k as int), from, to),
        decreases s@.len() - k,
    {
        let c = if s[k] == from {
            to
        } else {
            s[k]
        };
        v.push(c);
        k = k + 1;
        proof {
            assert(v@ =~= replaced_chars(s@.subrange(0, k as int), from, to));
        }
    }
    proof {
        assert(s@.subrange(0, s@.len() as int) =~= s@);
    }
    v
}

fn suffix_chars() -> (r: Vec<char>)
    ensures
        r@ == preset_suffix(),
{
    let v: Vec<char> = vec!['.', 'c', 'u', 's', 't', 'o', 'm', '.', 'j', 's', 'o', 'n'];
    proof {
        assert(v@ =~= preset_suffix());
    }
    v
}

/// The file name of the custom preset `name`: each `/` becomes `_`, and `.custom.json` follows.
pub fn custom_preset_file_name(name: &[char]) -> (r: Vec<char>)
    ensures
        r@ == replaced_chars(name@, '/', '_') + preset_suffix(),
{
    let mut v = replace_chars(name, '/', '_');
    let mut suffix = suffix_chars();
    v.append(&mut suffix);
    v
}

/// The name of the custom preset stored under `file_name`, if it is the file of one: the name
/// before `.custom.json`, each `_` turned back into `/`.
pub fn preset_name_from_file(file_name: &[char]) -> (r: Option<Vec<char>>)
    ensures
        ({
            let n = file_name@.len();
            if n >= 12 && file_name@.subrange(n - 12, n as int) == preset_suffix() {
                r matches Some(name) && name@ == replaced_chars(file_name@.subrange(0, n - 12), '_', '/')
            } else {
                r is None
            }
        }),
{
    let n = file_name.len();
    if n < 12 {
        return None;
    }
    let suffix = suffix_chars();
    let mut k: usize = 0;
    while k < 12
        invariant
            12 <= n == file_name@.len(),
            suffix@ == preset_suffix(),
            k <= 12,
            forall|m: int| 0 <= m < k ==> file_name@[n - 12 + m] == suffix@[m],
        decreases 12 - k,
    {
        if file_name[n - 12 + k] != suffix[k] {
            proof {
                assert(file_name@.subrange(n - 12, n as int)[k as int] != preset_suffix()[k as int]);
            }
            return None;
        }
        k = k + 1;
    }
    proof {
        assert(file_name@.subrange(n - 12, n as int) =~= preset_suffix());
    }
    let stem = vstd::slice::slice_subrange(file_name, 0, n - 12);
    Some(replace_chars(stem, '_', '/'))
}

/// The question asked before the custom preset `name` is deleted.
pub fn delete_preset_question(name: &str) -> (r: String)
    ensures
        r@ == "Are you sure you want to permanently delete the preset \u{201c}"@ + name@ + "\u{201d}?"@,
{
    let mut s = String::from_str("Are you sure you want to permanently delete the preset \u{201c}");
    s.append(name);
    s.append("\u{201d}?");
    s
}

/// Where a preset comes from.
#[derive(Debug, Clone, Copy, PartialEq, Eq, Structural)]
pub enum PresetSource {
    /// The default preset, which sets nothing.
    Default,
    /// The preset at this index among those that ship with the randomizer.
    Builtin(usize),
    /// The preset at this index among the user's own.
    Custom(usize),
}

/// Where the preset named `name` is found, looked up in the order presets are listed: the
/// default preset first, then those that ship with the randomizer, then the user's own.
pub open spec fn preset_lookup<P>(builtin: Seq<(String, P)>, custom: Seq<(String, P)>, name: Seq<char>) -> Option<
    PresetSource,
> {
    if name == "Default / Beginner"@ {
        Some(PresetSource::Default)
    } else if name_position(builtin, name, 0) < builtin.len() {
        Some(PresetSource::Builtin(name_position(builtin, name, 0) as usize))
    } else if name_position(custom, name, 0) < custom.len() {
        Some(PresetSource::Custom(name_position(custom, name, 0) as usize))
    } else {
        None
    }
}

/// The colours of the interface.
#[derive(Debug, Clone, Copy, PartialEq, Eq, Structural)]
pub enum Theme {
    Light,
    Dark,
}

/// The theme a desktop's `color-scheme` preference asks for, if it asks for one.
pub fn theme_from_color_scheme(scheme: &String) -> (r: Option<Theme>)
    ensures
        scheme@ == "prefer-light"@ ==> r == Some(Theme::Light),
        scheme@ == "prefer-dark"@ ==> r == Some(Theme::Dark),
        scheme@ != "prefer-light"@ && scheme@ != "prefer-dark"@ ==> r is None,
{
    proof {
        reveal_strlit("prefer-light");
        reveal_strlit("prefer-dark");
        assert("prefer-light"@[7] != "prefer-dark"@[7]);
    }
    if *scheme == String::from_str("prefer-light") {
        Some(Theme::Light)
    } else if *scheme == String::from_str("prefer-dark") {
        Some(Theme::Dark)
    } else {
        None
    }
}

/// What the system reported as its theme, when asked.
#[derive(Debug, Clone, Copy, PartialEq, Eq, Structural)]
pub enum DetectedTheme {
    Dark,
    Light,
    Unspecified,
    Failed,
}

/// The theme of the interface: the desktop's `color-scheme` preference if it names one, else
/// dark exactly when the system reports a dark theme.
pub fn choose_theme(color_scheme: Option<&String>, detected: DetectedTheme) -> (r: Theme)
    ensures
        r == (if color_scheme matches Some(s) && s@ == "prefer-dark"@ {
            Theme::Dark
        } else if color_scheme matches Some(s) && s@ == "prefer-light"@ {
            Theme::Light
        } else if detected == DetectedTheme::Dark {
            Theme::Dark
        } else {
            Theme::Light
        }),
{
    proof {
        reveal_strlit("prefer-light");
        reveal_strlit("prefer-dark");
        assert("prefer-light"@[7] != "prefer-dark"@[7]);
    }
    if let Some(s) = color_scheme {
        if let Some(t) = theme_from_color_scheme(s) {
            return t;
        }
    }
    match detected {
        DetectedTheme::Dark => Theme::Dark,
        _ => Theme::Light,
    }
}

/// Whether the settings editor shows a tab: not the general tab, nor one left out of the web
/// or desktop versions, nor one meant for an application other than the generator.
pub fn tab_shown(name: &String, exclude_from_web: bool, exclude_from_electron: bool, app_type: &Vec<String>) -> (r: bool)
    ensures
        r == !(name@ == "general_tab"@ || exclude_from_web || exclude_from_electron
            || exists|i: int| 0 <= i < app_type@.len() && app_type@[i]@ != "generator"@),
{
    if *name == String::from_str("general_tab") || exclude_from_web || exclude_from_electron {
        return false;
    }
    let generator = String::from_str("generator");
    let mut i: usize = 0;
    while i < app_type.len()
        invariant
            i <= app_type@.len(),
            generator@ == "generator"@,
            forall|k: int| 0 <= k < i ==> app_type@[k]@ == "generator"@,
        decreases app_type@.len() - i,
    {
        if app_type[i] != generator {
            return false;
        }
        i = i + 1;
    }
    true
}

/// The state of the interface. `E` is the error a failed generation reports, `C` the error a
/// failed command reports, `V` the value of a setting.
pub struct Gui<E, C, V> {
    windows: Vec<(u64, WindowState<E>)>,
    error: Option<C>,
    language: Language,
    selected_preset: Option<String>,
    builtin_presets: Vec<(String, Settings<V>)>,
    custom_presets: Vec<(String, Settings<V>)>,
}

/// The name of the preset selected at the start.
pub fn default_preset() -> (s: &'static str)
    ensures
        s@ == "Default / Beginner"@,
{
    proof {
        reveal_strlit("Default / Beginner");
    }
    "Default / Beginner"
}

impl<E, C, V> Gui<E, C, V> {
    #[verifier::type_invariant]
    spec fn inv(self) -> bool {
        &&& ids_unique(self.windows@)
        &&& names_ascending(self.custom_presets@)
    }

    /// The open windows, each with its identifier, in the order they were opened.
    pub closed spec fn windows(self) -> Seq<(u64, WindowState<E>)> {
        self.windows@
    }

    /// The error of a failed command, shown in the main window until dismissed.
    pub closed spec fn current_error(self) -> Option<C> {
        self.error
    }

    /// The language of the interface and of generated seeds.
    pub closed spec fn current_language(self) -> Language {
        self.language
    }

    /// The name of the selected preset, or `None` while presets are being customized.
    pub closed spec fn preset_selection(self) -> Option<String> {
        self.selected_preset
    }

    /// The presets that ship with the randomizer, each with its name, in their order.
    pub closed spec fn builtin_presets(self) -> Seq<(String, Settings<V>)> {
        self.builtin_presets@
    }

    /// The user's own presets, each with its name, in the order of names.
    pub closed spec fn custom_presets(self) -> Seq<(String, Settings<V>)> {
        self.custom_presets@
    }

    /// The presets are as in `other`.
    pub open spec fn same_presets(self, other: Self) -> bool {
        &&& self.builtin_presets() == other.builtin_presets()
        &&& self.custom_presets() == other.custom_presets()
    }

    /// The seed window that a request to close `window` asks about, if any, numbers its
    /// unsaved worlds in a byte.
    pub open spec fn closing_numberable(self, window: u64) -> bool {
        let ws = self.windows();
        match self.state_of(window) {
            WindowState::Main => {
                let j = first_from(ws, asks(), 0);
                j < ws.len() ==> (ws[j].1 matches WindowState::Seed(s) ==> worlds_numberable(s.saved()))
            },
            WindowState::Seed(s) => worlds_numberable(s.saved()),
            _ => true,
        }
    }

    /// Whether a window with identifier `id` is open.
    pub open spec fn has_window(self, id: u64) -> bool {
        has_id(self.windows(), id)
    }

    /// What the window with identifier `id` shows.
    pub open spec fn state_of(self, id: u64) -> WindowState<E> {
        self.windows()[position(self.windows(), id)].1
    }

    /// Everything but the windows is as in `other`.
    pub open spec fn same_settings(self, other: Self) -> bool {
        &&& self.current_error() == other.current_error()
        &&& self.current_language() == other.current_language()
        &&& self.preset_selection() == other.preset_selection()
        &&& self.same_presets(other)
    }

    /// The windows are as in `old` without the window with identifier `id`.
    pub open spec fn removed(self, old: Self, id: u64) -> bool {
        &&& self.windows() == old.windows().remove(position(old.windows(), id))
        &&& self.same_settings(old)
    }

    /// The window with identifier `id` now shows `state`; everything else is as in `old`.
    pub open spec fn replaced(self, old: Self, id: u64, state: WindowState<E>) -> bool {
        &&& self.windows() == old.windows().update(position(old.windows(), id), (id, state))
        &&& self.same_settings(old)
    }

    /// No window is open, there is no error, the language is English, the default preset is
    /// selected, and no preset is loaded yet.
    pub fn new() -> (g: Self)
        ensures
            g.windows().len() == 0,
            g.current_error() is None,
            g.current_language() == Language::English,
            g.preset_selection() matches Some(p) && p@ == "Default / Beginner"@,
            g.builtin_presets().len() == 0,
            g.custom_presets().len() == 0,
    {
        let name = String::from_str(default_preset());
        Gui {
            windows: Vec::new(),
            error: None,
            language: Language::English,
            selected_preset: Some(name),
            builtin_presets: Vec::new(),
            custom_presets: Vec::new(),
        }
    }

    /// Where the window with identifier `id` stands, if it is open.
    fn find(&self, id: u64) -> (r: Option<usize>)
        ensures
            r matches Some(i) ==> i < self.windows().len() && self.windows()[i as int].0 == id
                && position(self.windows(), id) == i,
            r is None <==> !self.has_window(id),
    {
        proof {
            use_type_invariant(self);
        }
        let mut i: usize = 0;
        while i < self.windows.len()
            invariant
                i <= self.windows@.len(),
                ids_unique(self.windows@),
                forall|k: int| 0 <= k < i ==> self.windows@[k].0 != id,
            decreases self.windows@.len() - i,
        {
            if self.windows[i].0 == id {
                proof {
                    lemma_position(self.windows@, i as int);
                }
                return Some(i);
            }
            i = i + 1;
        }
        None
    }

    /// What the window with identifier `id` shows, if it is open.
    pub fn window(&self, id: u64) -> (r: Option<&WindowState<E>>)
        ensures
            r matches Some(s) ==> self.has_window(id) && *s == self.state_of(id),
            r is None <==> !self.has_window(id),
    {
        match self.find(id) {
            Some(i) => Some(&self.windows[i].1),
            None => None,
        }
    }

    /// Records a newly opened window.
    pub fn open_window(&mut self, id: u64, state: WindowState<E>)
        requires
            !old(self).has_window(id),
        ensures
            final(self).windows() == old(self).windows().push((id, state)),
            final(self).same_settings(*old(self)),
    {
        proof {
            use_type_invariant(&*self);
        }
        let ghost before = self.windows@;
        let mut ws: Vec<(u64, WindowState<E>)> = Vec::new();
        std::mem::swap(&mut ws, &mut self.windows);
        ws.push((id, state));
        proof {
            assert forall|a: int, b: int| 0 <= a < b < ws@.len() implies ws@[a].0 != ws@[b].0 by {
                if b == before.len() {
                    assert(ws@[a] == before[a]);
                    if before[a].0 == id {
                        assert(has_id(before, id));
                    }
                } else {
                    assert(ws@[a] == before[a]);
                    assert(ws@[b] == before[b]);
                }
            }
        }
        self.windows = ws;
    }

    /// Forgets the window at `i`.
    fn remove_at(&mut self, i: usize)
        requires
            i < old(self).windows().len(),
        ensures
            final(self).windows() == old(self).windows().remove(i as int),
            final(self).same_settings(*old(self)),
    {
        proof {
            use_type_invariant(&*self);
            lemma_remove_unique(self.windows@, i as int);
        }
        let mut ws: Vec<(u64, WindowState<E>)> = Vec::new();
        std::mem::swap(&mut ws, &mut self.windows);
        ws.remove(i);
        self.windows = ws;
    }

    /// Decides what a request to close window `window` leads to. Closing the main window quits,
    /// unless a seed window has unsaved files: then the first such window's question is asked.
    /// Closing a seed window with unsaved files asks its question; any other window is forgotten
    /// and closed.
    pub fn close_requested(&mut self, window: u64) -> (r: CloseAction)
        requires
            old(self).has_window(window),
            old(self).closing_numberable(window),
        ensures
            ({
                let ws = old(self).windows();
                match old(self).state_of(window) {
                    WindowState::Main => {
                        let j = first_from(ws, asks(), 0);
                        &&& *final(self) == *old(self)
                        &&& if j < ws.len() {
                            ws[j].1 matches WindowState::Seed(s) && r matches CloseAction::Ask(q)
                                && is_close_question(s.saved(), s.spoiler_saved(), window, ws[j].0, Some(q))
                        } else {
                            r is Exit
                        }
                    },
                    WindowState::Seed(s) => if s.needs_question() {
                        &&& *final(self) == *old(self)
                        &&& r matches CloseAction::Ask(q)
                        &&& is_close_question(s.saved(), s.spoiler_saved(), window, window, Some(q))
                    } else {
                        final(self).removed(*old(self), window) && r == CloseAction::Close(window)
                    },
                    _ => final(self).removed(*old(self), window) && r == CloseAction::Close(window),
                }
            }),
    {
        proof {
            use_type_invariant(&*self);
        }
        let i = match self.find(window) {
            Some(i) => i,
            None => {
                proof {
                    assert(false);
                }
                return CloseAction::Exit;
            },
        };
        let is_main = match &self.windows[i].1 {
            WindowState::Main => true,
            _ => false,
        };
        if is_main {
            let n = self.windows.len();
            let mut k: usize = 0;
            while k < n
                invariant
                    *self == *old(self),
                    old(self).state_of(window) is Main,
                    old(self).closing_numberable(window),
                    n == self.windows@.len(),
                    k <= n,
                    forall|m: int| 0 <= m < k ==> !asks()(#[trigger] self.windows@[m]),
                decreases n - k,
            {
                if let WindowState::Seed(s) = &self.windows[k].1 {
                    proof {
                        lemma_first_skip(self.windows@, asks(), 0, k as int);
                        if !asks()(self.windows@[k as int]) {
                            lemma_unsaved_empty(s.saved(), s.saved().len() as int);
                        }
                    }
                    assert(worlds_numberable(s.saved()));
                    if let Some(q) = s.before_close_message(window, self.windows[k].0) {
                        proof {
                            lemma_first_skip(self.windows@, asks(), 0, k as int);
                        }
                        return CloseAction::Ask(q);
                    }
                }
                k = k + 1;
            }
            proof {
                lemma_first_skip(self.windows@, asks(), 0, n as int);
            }
            return CloseAction::Exit;
        }
        let question = match &self.windows[i].1 {
            WindowState::Seed(s) => {
                s.before_close_message(window, window)
            },
            _ => None,
        };
        match question {
            Some(q) => CloseAction::Ask(q),
            None => {
                self.remove_at(i);
                CloseAction::Close(window)
            },
        }
    }

    /// Puts `state` in the window at `i`, giving back what it showed.
    fn swap_state(&mut self, i: usize, state: WindowState<E>) -> (prev: WindowState<E>)
        requires
            i < old(self).windows().len(),
        ensures
            final(self).windows() == old(self).windows().update(i as int, (old(self).windows()[i as int].0, state)),
            final(self).same_settings(*old(self)),
            prev == old(self).windows()[i as int].1,
    {
        proof {
            use_type_invariant(&*self);
            lemma_update_unique(self.windows@, i as int, state);
        }
        let ghost before = self.windows@;
        let mut ws: Vec<(u64, WindowState<E>)> = Vec::new();
        std::mem::swap(&mut ws, &mut self.windows);
        let (id, prev) = ws.remove(i);
        ws.insert(i, (id, state));
        proof {
            assert(ws@ =~= before.update(i as int, (before[i as int].0, state)));
        }
        self.windows = ws;
        prev
    }

    /// Whether a main window is open.
    pub open spec fn main_open(self) -> bool {
        exists|i: int| 0 <= i < self.windows().len() && self.windows()[i].1 is Main
    }

    /// Shows the error of a failed command. Returns whether a main window has to be opened to
    /// show it, because none is open.
    pub fn command_error(&mut self, e: C) -> (open_main: bool)
        ensures
            final(self).windows() == old(self).windows(),
            final(self).current_error() == Some(e),
            final(self).current_language() == old(self).current_language(),
            final(self).same_presets(*old(self)),
            final(self).preset_selection() == old(self).preset_selection(),
            open_main <==> !old(self).main_open(),
    {
        proof {
            use_type_invariant(&*self);
        }
        let open_main = !self.has_main();
        self.error = Some(e);
        open_main
    }

    /// Whether a main window is open.
    fn has_main(&self) -> (r: bool)
        ensures
            r == self.main_open(),
    {
        let mut k: usize = 0;
        while k < self.windows.len()
            invariant
                k <= self.windows@.len(),
                forall|m: int| 0 <= m < k ==> !((#[trigger] self.windows@[m]).1 is Main),
            decreases self.windows@.len() - k,
        {
            if let WindowState::Main = &self.windows[k].1 {
                return true;
            }
            k = k + 1;
        }
        false
    }

    /// The error of a failed command, if one is shown.
    pub fn error(&self) -> (r: Option<&C>)
        ensures
            r matches Some(e) ==> self.current_error() == Some(*e),
            r is None <==> self.current_error() is None,
    {
        match &self.error {
            Some(e) => Some(e),
            None => None,
        }
    }

    /// Stops showing the error.
    pub fn dismiss_error(&mut self)
        ensures
            final(self).windows() == old(self).windows(),
            final(self).current_error() is None,
            final(self).current_language() == old(self).current_language(),
            final(self).same_presets(*old(self)),
            final(self).preset_selection() == old(self).preset_selection(),
    {
        proof {
            use_type_invariant(&*self);
        }
        self.error = None;
    }

    /// The language of the interface and of generated seeds.
    pub fn language(&self) -> (r: Language)
        ensures
            r == self.current_language(),
    {
        self.language
    }

    /// Changes the language.
    pub fn set_language(&mut self, language: Language)
        ensures
            final(self).windows() == old(self).windows(),
            final(self).current_error() == old(self).current_error(),
            final(self).current_language() == language,
            final(self).preset_selection() == old(self).preset_selection(),
            final(self).same_presets(*old(self)),
    {
        proof {
            use_type_invariant(&*self);
        }
        self.language = language;
    }

    /// The name of the selected preset, or `None` while presets are being customized.
    pub fn selected_preset(&self) -> (r: Option<&String>)
        ensures
            r matches Some(p) ==> self.preset_selection() == Some(*p),
            r is None <==> self.preset_selection() is None,
    {
        match &self.selected_preset {
            Some(p) => Some(p),
            None => None,
        }
    }

    /// Selects the preset named `name`.
    pub fn set_preset(&mut self, name: String)
        ensures
            final(self).windows() == old(self).windows(),
            final(self).current_error() == old(self).current_error(),
            final(self).current_language() == old(self).current_language(),
            final(self).same_presets(*old(self)),
            final(self).preset_selection() == Some(name),
    {
        proof {
            use_type_invariant(&*self);
        }
        self.selected_preset = Some(name);
    }

    /// Leaves the selected preset for the list of presets, to customize them.
    pub fn customize_settings(&mut self)
        ensures
            final(self).windows() == old(self).windows(),
            final(self).current_error() == old(self).current_error(),
            final(self).current_language() == old(self).current_language(),
            final(self).same_presets(*old(self)),
            final(self).preset_selection() is None,
    {
        proof {
            use_type_invariant(&*self);
        }
        self.selected_preset = None;
    }

    /// Where the first window editing the preset `name` stands, or the number of windows.
    fn first_editing(&self, name: &String) -> (r: usize)
        ensures
            r == first_from(self.windows(), edits(name@), 0),
    {
        let n = self.windows.len();
        let mut k: usize = 0;
        while k < n
            invariant
                n == self.windows@.len(),
                k <= n,
                forall|m: int| 0 <= m < k ==> !edits(name@)(#[trigger] self.windows@[m]),
            decreases n - k,
        {
            if let WindowState::Preset { preset_name, .. } = &self.windows[k].1 {
                if *preset_name == *name {
                    proof {
                        lemma_first_skip(self.windows@, edits(name@), 0, k as int);
                    }
                    return k;
                }
            }
            k = k + 1;
        }
        proof {
            lemma_first_skip(self.windows@, edits(name@), 0, n as int);
        }
        n
    }

    /// The window already editing the preset `name`, if any: it gets the focus instead of a
    /// new one opening.
    pub fn preset_window(&self, name: &String) -> (r: Option<u64>)
        ensures
            ({
                let j = first_from(self.windows(), edits(name@), 0);
                if j < self.windows().len() {
                    r == Some(self.windows()[j].0)
                } else {
                    r is None
                }
            }),
    {
        let j = self.first_editing(name);
        if j < self.windows.len() {
            Some(self.windows[j].0)
        } else {
            None
        }
    }

    /// Forgets the custom preset `name`: it leaves the user's presets, the default preset is
    /// selected instead if it was selected, and the first window editing it is forgotten and
    /// returned, to be closed.
    pub fn delete_preset(&mut self, name: &String) -> (closed: Option<u64>)
        ensures
            final(self).current_error() == old(self).current_error(),
            final(self).current_language() == old(self).current_language(),
            final(self).builtin_presets() == old(self).builtin_presets(),
            ({
                let cs = old(self).custom_presets();
                let k = name_position(cs, name@, 0);
                if k < cs.len() {
                    final(self).custom_presets() == cs.remove(k)
                } else {
                    final(self).custom_presets() == cs
                }
            }),
            if old(self).preset_selection() matches Some(p) && p@ == name@ {
                final(self).preset_selection() matches Some(d) && d@ == "Default / Beginner"@
            } else {
                final(self).preset_selection() == old(self).preset_selection()
            },
            ({
                let ws = old(self).windows();
                let j = first_from(ws, edits(name@), 0);
                if j < ws.len() {
                    closed == Some(ws[j].0) && final(self).windows() == ws.remove(j)
                } else {
                    closed is None && final(self).windows() == ws
                }
            }),
    {
        let j = self.first_editing(name);
        let closed = if j < self.windows.len() {
            let id = self.windows[j].0;
            self.remove_at(j);
            Some(id)
        } else {
            None
        };
        let reset = match &self.selected_preset {
            Some(p) => *p == *name,
            None => false,
        };
        if reset {
            proof {
                use_type_invariant(&*self);
            }
            self.selected_preset = Some(String::from_str(default_preset()));
        }
        let k = find_named(&self.custom_presets, name);
        if k < self.custom_presets.len() {
            proof {
                use_type_invariant(&*self);
                let cs = self.custom_presets@;
                let r = cs.remove(k as int);
                assert forall|a: int, b: int| 0 <= a < b < r.len() implies name_before(r[a].0@, r[b].0@) by {
                    let a2 = if a < k { a } else { a + 1 };
                    let b2 = if b < k { b } else { b + 1 };
                    assert(r[a] == cs[a2]);
                    assert(r[b] == cs[b2]);
                }
            }
            let mut cs: Vec<(String, Settings<V>)> = Vec::new();
            std::mem::swap(&mut cs, &mut self.custom_presets);
            cs.remove(k);
            self.custom_presets = cs;
        }
        closed
    }

    /// The name of the preset that window `window` edits, if it is a preset editor.
    pub fn preset_being_edited(&self, window: u64) -> (r: Option<&String>)
        ensures
            r matches Some(p) ==> {
                &&& self.has_window(window)
                &&& self.state_of(window) matches WindowState::Preset { preset_name, .. }
                &&& preset_name == *p
            },
            r is None <==> !(self.has_window(window) && self.state_of(window) is Preset),
    {
        match self.find(window) {
            Some(i) => match &self.windows[i].1 {
                WindowState::Preset { preset_name, .. } => Some(preset_name),
                _ => None,
            },
            None => None,
        }
    }

    /// Shows tab `tab_name` in window `window`, if it is a preset editor.
    pub fn set_settings_tab(&mut self, window: u64, tab_name: String)
        ensures
            if old(self).has_window(window) && old(self).state_of(window) is Preset {
                old(self).state_of(window) matches WindowState::Preset { preset_name, .. }
                    && final(self).replaced(*old(self), window, WindowState::Preset { preset_name, active_tab: tab_name })
            } else {
                *final(self) == *old(self)
            },
    {
        if let Some(i) = self.find(window) {
            let is_preset = match &self.windows[i].1 {
                WindowState::Preset { .. } => true,
                _ => false,
            };
            if is_preset {
                let prev = self.swap_state(i, WindowState::Main);
                let ghost mid = self.windows@;
                match prev {
                    WindowState::Preset { preset_name, .. } => {
                        self.swap_state(i, WindowState::Preset { preset_name, active_tab: tab_name });
                        proof {
                            assert(self.windows@ =~= old(self).windows().update(
                                i as int,
                                (window, WindowState::Preset { preset_name, active_tab: tab_name }),
                            ));
                        }
                    },
                    other => {
                        self.swap_state(i, other);
                    },
                }
            }
        }
    }

    /// Opens window `window` to follow a seed being generated.
    pub fn start_generation(&mut self, window: u64)
        requires
            !old(self).has_window(window),
        ensures
            final(self).same_settings(*old(self)),
            final(self).windows().len() == old(self).windows().len() + 1,
            final(self).windows().drop_last() == old(self).windows(),
            final(self).windows().last().0 == window,
            final(self).windows().last().1 matches WindowState::Generator { progress, display }
                && progress == (0usize, (ATTEMPTS + 2) as usize)
                && display@ == "Starting seed generator"@,
    {
        let display = String::from_str("Starting seed generator");
        self.open_window(window, WindowState::Generator { progress: (0, ATTEMPTS + 2), display });
        proof {
            assert(self.windows().drop_last() =~= old(self).windows());
        }
    }

    /// Shows how far the generation followed in window `window` is, if that window still
    /// follows one. Returns whether it does: only then does generation go on.
    pub fn show_progress(&mut self, window: u64, progress: (usize, usize), display: String) -> (r: bool)
        ensures
            r <==> old(self).has_window(window) && old(self).state_of(window) is Generator,
            r ==> final(self).replaced(*old(self), window, WindowState::Generator { progress, display }),
            !r ==> *final(self) == *old(self),
    {
        if let Some(i) = self.find(window) {
            let is_generator = match &self.windows[i].1 {
                WindowState::Generator { .. } => true,
                _ => false,
            };
            if is_generator {
                self.swap_state(i, WindowState::Generator { progress, display });
                return true;
            }
        }
        false
    }

    /// Window `window` shows the generated `seed`, if it is still open.
    pub fn seed_done(&mut self, window: u64, seed: Seed)
        ensures
            old(self).has_window(window) ==> {
                &&& final(self).replaced(*old(self), window, final(self).state_of(window))
                &&& final(self).state_of(window) matches WindowState::Seed(w)
                &&& w.spec_seed() == seed
                &&& w.saved() == Seq::new(patch_files(seed.patches).len(), |i: int| false)
                &&& !w.spoiler_saved()
            },
            !old(self).has_window(window) ==> *final(self) == *old(self),
    {
        proof {
            use_type_invariant(&*self);
        }
        if let Some(i) = self.find(window) {
            self.swap_state(i, WindowState::Seed(SeedWindow::new(seed)));
            proof {
                use_type_invariant(&*self);
                lemma_position(self.windows@, i as int);
            }
        }
    }

    /// Window `window` shows why generation failed, if it is still open.
    pub fn generation_failed(&mut self, window: u64, error: E)
        ensures
            old(self).has_window(window) ==> final(self).replaced(*old(self), window, WindowState::RollError(error)),
            !old(self).has_window(window) ==> *final(self) == *old(self),
    {
        if let Some(i) = self.find(window) {
            self.swap_state(i, WindowState::RollError(error));
        }
    }

    /// Marks every patch file of the seed in window `window` as saved.
    pub fn mark_patches_saved(&mut self, window: u64)
        requires
            old(self).has_window(window),
            old(self).state_of(window) is Seed,
        ensures
            final(self).replaced(*old(self), window, final(self).state_of(window)),
            ({
                &&& old(self).state_of(window) matches WindowState::Seed(v)
                &&& final(self).state_of(window) matches WindowState::Seed(w)
                &&& w.spec_seed() == v.spec_seed()
                &&& w.spoiler_saved() == v.spoiler_saved()
                &&& w.saved() == Seq::new(v.saved().len(), |i: int| true)
            }),
    {
        proof {
            use_type_invariant(&*self);
        }
        let i = match self.find(window) {
            Some(i) => i,
            None => {
                proof {
                    assert(false);
                }
                return;
            },
        };
        let prev = self.swap_state(i, WindowState::Main);
        match prev {
            WindowState::Seed(mut w) => {
                w.mark_patches_saved();
                self.swap_state(i, WindowState::Seed(w));
            },
            other => {
                self.swap_state(i, other);
            },
        }
        proof {
            use_type_invariant(&*self);
            lemma_position(self.windows@, i as int);
            assert(self.windows@ =~= old(self).windows().update(i as int, (window, self.windows@[i as int].1)));
        }
    }

    /// Marks the spoiler log of the seed in window `window` as saved.
    pub fn mark_spoiler_saved(&mut self, window: u64)
        requires
            old(self).has_window(window),
            old(self).state_of(window) is Seed,
        ensures
            final(self).replaced(*old(self), window, final(self).state_of(window)),
            ({
                &&& old(self).state_of(window) matches WindowState::Seed(v)
                &&& final(self).state_of(window) matches WindowState::Seed(w)
                &&& w.spec_seed() == v.spec_seed()
                &&& w.saved() == v.saved()
                &&& w.spoiler_saved()
            }),
    {
        proof {
            use_type_invariant(&*self);
        }
        let i = match self.find(window) {
            Some(i) => i,
            None => {
                proof {
                    assert(false);
                }
                return;
            },
        };
        let prev = self.swap_state(i, WindowState::Main);
        match prev {
            WindowState::Seed(mut w) => {
                w.mark_spoiler_saved();
                self.swap_state(i, WindowState::Seed(w));
            },
            other => {
                self.swap_state(i, other);
            },
        }
        proof {
            use_type_invariant(&*self);
            lemma_position(self.windows@, i as int);
            assert(self.windows@ =~= old(self).windows().update(i as int, (window, self.windows@[i as int].1)));
        }
    }

    /// Decides what the user's answer to the question about the unsaved files of the seed in
    /// `window_to_check` leads to: saving them, deleting the seed (its window is forgotten and
    /// closed, and `window_to_close` is requested to close again if it is another window), or
    /// nothing.
    pub fn answer(&mut self, window_to_close: u64, window_to_check: u64, answer: Answer) -> (r: AnswerAction)
        ensures
            match answer {
                Answer::Save => *final(self) == *old(self) && r == (AnswerAction::Save { window_to_close, window_to_check }),
                Answer::Cancel => *final(self) == *old(self) && r is Nothing,
                Answer::Delete => {
                    &&& r == (AnswerAction::Close {
                        window: window_to_check,
                        then_close: if window_to_close == window_to_check { None } else { Some(window_to_close) },
                    })
                    &&& if old(self).has_window(window_to_check) {
                        final(self).removed(*old(self), window_to_check)
                    } else {
                        *final(self) == *old(self)
                    }
                },
            },
    {
        match answer {
            Answer::Save => AnswerAction::Save { window_to_close, window_to_check },
            Answer::Cancel => AnswerAction::Nothing,
            Answer::Delete => {
                if let Some(i) = self.find(window_to_check) {
                    self.remove_at(i);
                }
                let then_close = if window_to_close == window_to_check {
                    None
                } else {
                    Some(window_to_close)
                };
                AnswerAction::Close { window: window_to_check, then_close }
            },
        }
    }


    /// Loads the presets: those that ship with the randomizer, and the user's own.
    pub fn set_presets(&mut self, builtin: Vec<(String, Settings<V>)>, custom: Vec<(String, Settings<V>)>)
        requires
            names_ascending(custom@),
        ensures
            final(self).windows() == old(self).windows(),
            final(self).current_error() == old(self).current_error(),
            final(self).current_language() == old(self).current_language(),
            final(self).preset_selection() == old(self).preset_selection(),
            final(self).builtin_presets() == builtin@,
            final(self).custom_presets() == custom@,
    {
        proof {
            use_type_invariant(&*self);
        }
        self.builtin_presets = builtin;
        self.custom_presets = custom;
    }

    /// Stores the custom preset `name` with settings `value`: it replaces the settings of a
    /// preset of that name, or is put where its name belongs in the order of names.
    pub fn add_custom_preset(&mut self, name: String, value: Settings<V>)
        ensures
            final(self).same_settings_but_presets(*old(self)),
            final(self).builtin_presets() == old(self).builtin_presets(),
            final(self).custom_presets() == put_preset(old(self).custom_presets(), name, value),
    {
        proof {
            use_type_invariant(&*self);
            lemma_put_preset_ascending(self.custom_presets@, name, value);
        }
        let ghost cs0 = self.custom_presets@;
        let p = find_sorted(&self.custom_presets, &name);
        proof {
            lemma_sorted_position(cs0, name@, 0);
        }
        let mut cs: Vec<(String, Settings<V>)> = Vec::new();
        std::mem::swap(&mut cs, &mut self.custom_presets);
        if p < cs.len() && cs[p].0 == name {
            let (n, _) = cs.remove(p);
            cs.insert(p, (n, value));
            proof {
                assert(cs@ =~= cs0.update(p as int, (cs0[p as int].0, value)));
            }
        } else {
            cs.insert(p, (name, value));
        }
        self.custom_presets = cs;
    }

    /// Replaces the settings of the custom preset `name`, if there is one; returns whether there
    /// was.
    pub fn update_custom_preset(&mut self, name: &String, value: Settings<V>) -> (r: bool)
        ensures
            final(self).same_settings_but_presets(*old(self)),
            final(self).builtin_presets() == old(self).builtin_presets(),
            ({
                let cs = old(self).custom_presets();
                let k = name_position(cs, name@, 0);
                &&& r == (k < cs.len())
                &&& if k < cs.len() {
                    final(self).custom_presets() == cs.update(k, (cs[k].0, value))
                } else {
                    final(self).custom_presets() == cs
                }
            }),
    {
        proof {
            use_type_invariant(&*self);
        }
        let ghost cs0 = self.custom_presets@;
        let k = find_named(&self.custom_presets, name);
        if k < self.custom_presets.len() {
            let mut cs: Vec<(String, Settings<V>)> = Vec::new();
            std::mem::swap(&mut cs, &mut self.custom_presets);
            let (n, _) = cs.remove(k);
            cs.insert(k, (n, value));
            proof {
                assert(cs@ =~= cs0.update(k as int, (cs0[k as int].0, value)));
                assert forall|a: int, b: int| 0 <= a < b < cs@.len() implies name_before(cs@[a].0@, cs@[b].0@) by {
                    assert(cs@[a].0 == cs0[a].0);
                    assert(cs@[b].0 == cs0[b].0);
                }
            }
            self.custom_presets = cs;
            true
        } else {
            false
        }
    }

    /// The name of the preset that window `window` edits, if it is a preset editor.
    pub open spec fn editor_of(self, window: u64) -> Option<String> {
        if self.has_window(window) {
            match self.state_of(window) {
                WindowState::Preset { preset_name, .. } => Some(preset_name),
                _ => None,
            }
        } else {
            None
        }
    }

    /// Where among the user's presets stands the one that window `window` edits, if it is a
    /// preset editor and that preset exists.
    pub open spec fn edited_custom_index(self, window: u64) -> Option<int> {
        match self.editor_of(window) {
            Some(n) => {
                let k = name_position(self.custom_presets(), n@, 0);
                if k < self.custom_presets().len() {
                    Some(k)
                } else {
                    None
                }
            },
            None => None,
        }
    }

    /// Sets the setting `setting_name` to `new_value` in the custom preset that window `window`
    /// edits, if it is a preset editor and that preset exists; returns whether a preset changed
    /// (and is then to be written to its file). Only that setting of that preset changes.
    pub fn edit_preset_setting(&mut self, window: u64, setting_name: String, new_value: V) -> (r: bool)
        ensures
            final(self).same_settings_but_presets(*old(self)),
            final(self).builtin_presets() == old(self).builtin_presets(),
            match old(self).edited_custom_index(window) {
                Some(k) => {
                    let cs = old(self).custom_presets();
                    let fs = final(self).custom_presets();
                    &&& r
                    &&& fs.len() == cs.len()
                    &&& forall|i: int| 0 <= i < cs.len() && i != k ==> #[trigger] fs[i] == cs[i]
                    &&& fs[k].0 == cs[k].0
                    &&& fs[k].1@ == set_setting_spec(cs[k].1@, setting_name, new_value)
                    &&& settings_map(fs[k].1@) == settings_map(cs[k].1@).insert(setting_name@, new_value)
                },
                None => !r && final(self).custom_presets() == old(self).custom_presets(),
            },
    {
        proof {
            use_type_invariant(&*self);
        }
        let name = match self.find(window) {
            Some(i) => match &self.windows[i].1 {
                WindowState::Preset { preset_name, .. } => preset_name.clone(),
                _ => {
                    return false;
                },
            },
            None => {
                return false;
            },
        };
        let k = find_named(&self.custom_presets, &name);
        if k >= self.custom_presets.len() {
            return false;
        }
        let ghost cs0 = self.custom_presets@;
        let mut cs: Vec<(String, Settings<V>)> = Vec::new();
        std::mem::swap(&mut cs, &mut self.custom_presets);
        let (n, mut settings) = cs.remove(k);
        set_setting(&mut settings, setting_name, new_value);
        cs.insert(k, (n, settings));
        proof {
            assert forall|a: int, b: int| 0 <= a < b < cs@.len() implies name_before(cs@[a].0@, cs@[b].0@) by {
                assert(cs@[a].0 == cs0[a].0);
                assert(cs@[b].0 == cs0[b].0);
            }
            assert forall|i: int| 0 <= i < cs0.len() && i != k implies #[trigger] cs@[i] == cs0[i] by {
                if i < k {
                    assert(cs@[i] == cs0[i]);
                } else {
                    assert(cs@[i] == cs0[i]);
                }
            }
        }
        self.custom_presets = cs;
        true
    }

    /// The presets as they are listed, each name with whether it is one of the user's own: the
    /// default preset first, then those that ship with the randomizer in their order, then the
    /// user's own in the order of names.
    pub fn list_presets(&self) -> (r: Vec<(String, bool)>)
        ensures
            r@.len() == 1 + self.builtin_presets().len() + self.custom_presets().len(),
            r@[0].0@ == "Default / Beginner"@ && !r@[0].1,
            forall|i: int|
                0 <= i < self.builtin_presets().len() ==> #[trigger] r@[1 + i] == (
                self.builtin_presets()[i].0,
                false,
            ),
            forall|i: int|
                0 <= i < self.custom_presets().len() ==> #[trigger] r@[1 + self.builtin_presets().len() + i] == (
                self.custom_presets()[i].0,
                true,
            ),
            names_ascending(self.custom_presets()),
    {
        proof {
            use_type_invariant(self);
        }
        let mut r: Vec<(String, bool)> = Vec::new();
        r.push((String::from_str(default_preset()), false));
        let nb = self.builtin_presets.len();
        let mut i: usize = 0;
        while i < nb
            invariant
                nb == self.builtin_presets@.len(),
                i <= nb,
                r@.len() == 1 + i,
                r@[0].0@ == "Default / Beginner"@ && !r@[0].1,
                forall|j: int| 0 <= j < i ==> #[trigger] r@[1 + j] == (self.builtin_presets@[j].0, false),
            decreases nb - i,
        {
            r.push((self.builtin_presets[i].0.clone(), false));
            i = i + 1;
        }
        let nc = self.custom_presets.len();
        let mut j: usize = 0;
        while j < nc
            invariant
                nb == self.builtin_presets@.len(),
                nc == self.custom_presets@.len(),
                j <= nc,
                r@.len() == 1 + nb + j,
                r@[0].0@ == "Default / Beginner"@ && !r@[0].1,
                forall|k: int| 0 <= k < nb ==> #[trigger] r@[1 + k] == (self.builtin_presets@[k].0, false),
                forall|k: int| 0 <= k < j ==> #[trigger] r@[1 + nb + k] == (self.custom_presets@[k].0, true),
            decreases nc - j,
        {
            r.push((self.custom_presets[j].0.clone(), true));
            j = j + 1;
        }
        r
    }

    /// Everything but the presets is as in `other`.
    pub open spec fn same_settings_but_presets(self, other: Self) -> bool {
        &&& self.windows() == other.windows()
        &&& self.current_error() == other.current_error()
        &&& self.current_language() == other.current_language()
        &&& self.preset_selection() == other.preset_selection()
    }

    /// Where the preset named `name` is found: the default preset, then those that ship with
    /// the randomizer, then the user's own; `None` if there is no such preset.
    pub fn preset_source(&self, name: &String) -> (r: Option<PresetSource>)
        ensures
            r == preset_lookup(self.builtin_presets(), self.custom_presets(), name@),
    {
        if *name == String::from_str(default_preset()) {
            return Some(PresetSource::Default);
        }
        let b = find_named(&self.builtin_presets, name);
        if b < self.builtin_presets.len() {
            return Some(PresetSource::Builtin(b));
        }
        let c = find_named(&self.custom_presets, name);
        if c < self.custom_presets.len() {
            return Some(PresetSource::Custom(c));
        }
        None
    }

    /// The settings of the preset at `source`: `None` for the default preset, which sets
    /// nothing.
    pub fn preset_at(&self, source: PresetSource) -> (r: Option<&Settings<V>>)
        requires
            source matches PresetSource::Builtin(i) ==> i < self.builtin_presets().len(),
            source matches PresetSource::Custom(i) ==> i < self.custom_presets().len(),
        ensures
            match source {
                PresetSource::Default => r is None,
                PresetSource::Builtin(i) => r == Some(&self.builtin_presets()[i as int].1),
                PresetSource::Custom(i) => r == Some(&self.custom_presets()[i as int].1),
            },
    {
        match source {
            PresetSource::Default => None,
            PresetSource::Builtin(i) => Some(&self.builtin_presets[i].1),
            PresetSource::Custom(i) => Some(&self.custom_presets[i].1),
        }
    }

    /// The settings a seed is generated from: the selected preset, found where `r.0` says, with
    /// the settings of `generate_overrides` set on top of it, in order.
    pub fn generate_settings(&self, base_rom: &RomPath, pal_rom: &RomPath) -> (r: Result<
        (PresetSource, Vec<(String, String)>),
        PathError,
    >)
        requires
            self.preset_selection() matches Some(p) && preset_lookup(
                self.builtin_presets(),
                self.custom_presets(),
                p@,
            ) is Some,
        ensures
            r is Err <==> spec_overrides(self.current_language(), *base_rom, *pal_rom) is None,
            r matches Ok((src, v)) ==> {
                &&& Some(src) == preset_lookup(self.builtin_presets(), self.custom_presets(), self.preset_selection()->0@)
                &&& pair_views(v@) == spec_overrides(self.current_language(), *base_rom, *pal_rom)->0
            },
    {
        let source = match &self.selected_preset {
            Some(p) => match self.preset_source(p) {
                Some(src) => src,
                None => {
                    proof {
                        assert(false);
                    }
                    PresetSource::Default
                },
            },
            None => {
                proof {
                    assert(false);
                }
                PresetSource::Default
            },
        };
        match self.generate_overrides(base_rom, pal_rom) {
            Ok(v) => Ok((source, v)),
            Err(e) => Err(e),
        }
    }

    /// Marks every patch file of the seed in window `window_to_check` as saved, and gives back
    /// `window_to_close`, which is then requested to close again.
    pub fn mark_patches_saved_and_continue_closing(&mut self, window_to_close: u64, window_to_check: u64) -> (r: u64)
        requires
            old(self).has_window(window_to_check),
            old(self).state_of(window_to_check) is Seed,
        ensures
            r == window_to_close,
            final(self).replaced(*old(self), window_to_check, final(self).state_of(window_to_check)),
            ({
                &&& old(self).state_of(window_to_check) matches WindowState::Seed(v)
                &&& final(self).state_of(window_to_check) matches WindowState::Seed(w)
                &&& w.spec_seed() == v.spec_seed()
                &&& w.spoiler_saved() == v.spoiler_saved()
                &&& w.saved() == Seq::new(v.saved().len(), |i: int| true)
            }),
    {
        self.mark_patches_saved(window_to_check);
        window_to_close
    }

    /// Marks the spoiler log of the seed in window `window_to_check` as saved, and gives back
    /// `window_to_close`, which is then requested to close again.
    pub fn mark_spoiler_saved_and_continue_closing(&mut self, window_to_close: u64, window_to_check: u64) -> (r: u64)
        requires
            old(self).has_window(window_to_check),
            old(self).state_of(window_to_check) is Seed,
        ensures
            r == window_to_close,
            final(self).replaced(*old(self), window_to_check, final(self).state_of(window_to_check)),
            ({
                &&& old(self).state_of(window_to_check) matches WindowState::Seed(v)
                &&& final(self).state_of(window_to_check) matches WindowState::Seed(w)
                &&& w.spec_seed() == v.spec_seed()
                &&& w.saved() == v.saved()
                &&& w.spoiler_saved()
            }),
    {
        self.mark_spoiler_saved(window_to_check);
        window_to_close
    }

    /// The title of window `window`.
    pub fn title(&self, window: u64) -> (r: String)
        ensures
            r@ == if self.has_window(window) {
                match self.state_of(window) {
                    WindowState::Main => "OoT Randomizer"@,
                    WindowState::Preset { preset_name, .. } => preset_name@,
                    WindowState::Generator { .. } => "Generating Seed\u{2026}"@,
                    WindowState::Seed(_) => "Seed"@,
                    WindowState::RollError(_) => "Seed Error"@,
                }
            } else {
                "OoT Randomizer"@
            },
    {
        match self.window(window) {
            None => String::from_str("OoT Randomizer"),
            Some(WindowState::Main) => String::from_str("OoT Randomizer"),
            Some(WindowState::Preset { preset_name, .. }) => preset_name.clone(),
            Some(WindowState::Generator { .. }) => String::from_str("Generating Seed\u{2026}"),
            Some(WindowState::Seed(_)) => String::from_str("Seed"),
            Some(WindowState::RollError(_)) => String::from_str("Seed Error"),
        }
    }

    /// Window `window` shows a seed with `n` worlds.
    pub open spec fn shows_seed_of(self, window: u64, n: int) -> bool {
        &&& self.has_window(window)
        &&& self.state_of(window) matches WindowState::Seed(s)
        &&& s.saved().len() == n
    }

    /// The question asked when the patch files of the worlds `unsaved_worlds` of the seed in
    /// `window_to_check` are unsaved: it lists them unless none of its worlds is saved.
    pub fn save_patches_description(&self, window_to_check: u64, unsaved_worlds: &Vec<u8>) -> (r: String)
        requires
            unsaved_worlds@.len() >= 1,
        ensures
            r@ == keep_question(self.shows_seed_of(window_to_check, unsaved_worlds@.len() as int), unsaved_worlds@),
    {
        let all = match self.window(window_to_check) {
            Some(WindowState::Seed(s)) => unsaved_worlds.len() == s.num_worlds(),
            _ => false,
        };
        if all {
            return String::from_str("Do you want to keep this seed?");
        }
        let mut names: Vec<String> = Vec::new();
        let mut i: usize = 0;
        while i < unsaved_worlds.len()
            invariant
                i <= unsaved_worlds@.len(),
                names@.len() == i,
                views(names@) == world_names(unsaved_worlds@.subrange(0, i as int)),
            decreases unsaved_worlds@.len() - i,
        {
            let ghost before = names@;
            let name = decimal_string(unsaved_worlds[i] as usize);
            names.push(name);
            proof {
                let sub = unsaved_worlds@.subrange(0, i + 1);
                assert forall|k: int| 0 <= k < i + 1 implies views(names@)[k] == world_names(sub)[k] by {
                    if k < i {
                        assert(names@[k] == before[k]);
                        assert(views(before)[k] == world_names(unsaved_worlds@.subrange(0, i as int))[k]);
                    }
                }
                assert(views(names@) =~= world_names(sub));
            }
            i = i + 1;
        }
        proof {
            assert(unsaved_worlds@.subrange(0, unsaved_worlds@.len() as int) =~= unsaved_worlds@);
        }
        let mut out = String::from_str("Do you want to keep this seed? You haven't saved world");
        let ghost start = out@;
        if unsaved_worlds.len() != 1 {
            out.append("s");
        } else {
            proof {
                reveal_strlit("");
                assert(out@ =~= start + ""@);
            }
        }
        out.append(" ");
        let list = Language::English.join(&names);
        out.append(list.as_str());
        out.append(".");
        proof {
            assert(!self.shows_seed_of(window_to_check, unsaved_worlds@.len() as int));
        }
        out
    }

    /// The label before the base rom's path: it says which region when a PAL rom is needed too.
    pub fn base_rom_label(&self) -> (r: &'static str)
        ensures
            r@ == if self.current_language() == Language::English {
                "Base rom:"@
            } else {
                "Base rom (NTSC):"@
            },
    {
        if self.language.requires_pal_rom() {
            "Base rom (NTSC):"
        } else {
            "Base rom:"
        }
    }

    /// Why a seed cannot be generated yet, if it cannot: a base rom is needed unless one is
    /// cached, and so is a PAL base rom for a language other than English.
    pub fn generate_disable_reason(
        &self,
        base_rom: &RomPath,
        has_cached_base_rom: bool,
        pal_rom: &RomPath,
        has_cached_pal_rom: bool,
    ) -> (r: Option<&'static str>)
        ensures
            if !has_cached_base_rom && !given(*base_rom) {
                r matches Some(t) && t@ == "Please load a base rom"@
            } else if self.current_language() != Language::English && !has_cached_pal_rom && !given(*pal_rom) {
                r matches Some(t) && t@ == "Please load a PAL base rom"@
            } else {
                r is None
            },
    {
        if !has_cached_base_rom && !is_given(base_rom) {
            Some("Please load a base rom")
        } else if self.language.requires_pal_rom() && !has_cached_pal_rom && !is_given(pal_rom) {
            Some("Please load a PAL base rom")
        } else {
            None
        }
    }

    /// The settings that generating a seed sets on top of the selected preset, in order: the
    /// language, the base rom if one was given, and the PAL base rom if the language needs one
    /// and one was given. Fails if a given path is not Unicode.
    pub fn generate_overrides(&self, base_rom: &RomPath, pal_rom: &RomPath) -> (r: Result<
        Vec<(String, String)>,
        PathError,
    >)
        ensures
            r is Err <==> spec_overrides(self.current_language(), *base_rom, *pal_rom) is None,
            r matches Ok(v) ==> pair_views(v@) == spec_overrides(self.current_language(), *base_rom, *pal_rom)->0,
    {
        let mut v: Vec<(String, String)> = Vec::new();
        v.push((String::from_str("language"), String::from_str(self.language.setting_value())));
        proof {
            assert(pair_views(v@) =~= seq![("language"@, spec_setting_value(self.current_language()))]);
        }
        if !push_rom_setting(&mut v, "rom", base_rom) {
            return Err(PathError::NotUnicode);
        }
        if self.language.requires_pal_rom() {
            if !push_rom_setting(&mut v, "pal_rom", pal_rom) {
                return Err(PathError::NotUnicode);
            }
        }
        Ok(v)
    }

}

} // verus!
