//! Named presets: where they are kept, what they are called, and what they hold.
//!
//! A preset is a flat list of parameter texts and numbers. Files and folders are
//! touched elsewhere; paths are lists of their parts here.

use vstd::prelude::*;
use vstd::string::*;
use vstd::seq_lib::{group_to_multiset_ensures, to_multiset_remove};
use crate::single::Single;
use crate::text::{characters, lemma_trimmed, text_of, trim, trimmed};

verus! {

/// A preset: its name, and the value of every parameter that it holds.
pub struct Preset {
    pub name: String,
    pub values: Vec<(String, Single)>,
}

impl Preset {
    /// A preset of this name.
    pub fn new(name: &str, values: Vec<(String, Single)>) -> (p: Self)
        ensures
            p.name@ == name@,
            p.values == values,
    {
        Preset { name: name.to_owned(), values }
    }
}

// ----- Paths ------------------------------------------------------------------

/// The texts of a list.
pub open spec fn texts(v: Seq<String>) -> Seq<Seq<char>> {
    v.map_values(|s: String| s@)
}

/// The folder of the presets: in the user's application data on Windows, else in
/// the configuration under the user's home, else in the working folder.
pub open spec fn presets_dir_of(
    windows: bool,
    appdata: Option<Seq<char>>,
    home: Option<Seq<char>>,
) -> Seq<Seq<char>> {
    if windows && appdata is Some {
        seq![appdata->0, "ResoVoid"@, "presets"@]
    } else if home is Some {
        seq![home->0, ".config"@, "resovoid"@, "presets"@]
    } else {
        seq!["."@, "resovoid_presets"@]
    }
}

/// The text of an optional text.
pub open spec fn maybe_text(s: Option<String>) -> Option<Seq<char>> {
    match s {
        Some(t) => Some(t@),
        None => None,
    }
}

/// The folder of the presets, given what the environment says.
pub fn presets_dir(windows: bool, appdata: Option<String>, home: Option<String>) -> (r: Vec<String>)
    ensures
        texts(r@) == presets_dir_of(windows, maybe_text(appdata), maybe_text(home)),
{
    let mut r: Vec<String> = Vec::new();
    if windows {
        if let Some(base) = appdata {
            r.push(base);
            r.push("ResoVoid".to_owned());
            r.push("presets".to_owned());
            assert(texts(r@) =~= seq![base@, "ResoVoid"@, "presets"@]);
            return r;
        }
    }
    if let Some(base) = home {
        r.push(base);
        r.push(".config".to_owned());
        r.push("resovoid".to_owned());
        r.push("presets".to_owned());
        assert(texts(r@) =~= seq![base@, ".config"@, "resovoid"@, "presets"@]);
        return r;
    }
    r.push(".".to_owned());
    r.push("resovoid_presets".to_owned());
    assert(texts(r@) =~= seq!["."@, "resovoid_presets"@]);
    r
}

/// Whether a character would be taken for the structure of a path.
pub open spec fn path_char(c: char) -> bool {
    c == '/' || c == '\\' || c == ':' || c == '\0'
}

/// The text without characters of that kind.
pub open spec fn sanitized(s: Seq<char>) -> Seq<char> {
    s.filter(|c: char| !path_char(c))
}

/// What the file of the preset `name` is called, before its ending.
pub open spec fn stem_of(name: Seq<char>) -> Seq<char> {
    let stem = trimmed(sanitized(name));
    if stem.len() == 0 {
        "untitled"@
    } else {
        stem
    }
}

/// The name of the file that holds the preset `name`.
pub open spec fn file_name_of(name: Seq<char>) -> Seq<char> {
    stem_of(name) + ".json"@
}

fn sanitize(s: &str) -> (r: String)
    ensures
        r@ == sanitized(s@),
{
    let chars = characters(s);
    let mut kept: Vec<char> = Vec::new();
    let n: usize = chars.len();
    assert(s@.take(0) =~= seq![]);
    for i in 0..n
        invariant
            n == chars@.len(),
            chars@ == s@,
            kept@ == sanitized(s@.take(i as int)),
    {
        let c = chars[i];
        proof {
            assert(s@.take(i + 1) =~= s@.take(i as int).push(c));
            reveal(Seq::filter);
            assert(s@.take(i + 1).drop_last() =~= s@.take(i as int));
        }
        if c != '/' && c != '\\' && c != ':' && c != '\0' {
            kept.push(c);
        }
    }
    assert(s@.take(n as int) =~= s@);
    let m: usize = kept.len();
    let r = text_of(&kept, 0, m);
    assert(kept@.subrange(0, m as int) =~= kept@);
    r
}

/// The name of the file that holds the preset `name`. Nothing that separates
/// folders survives, so the file stays in the folder it is put in.
pub fn file_name(name: &str) -> (r: String)
    ensures
        r@ == file_name_of(name@),
{
    let safe = sanitize(name);
    let stem = trim(safe.as_str());
    let mut r = if stem.as_str().unicode_len() == 0 {
        "untitled".to_owned()
    } else {
        stem
    };
    r.append(".json");
    r
}

/// Where the preset `name` is kept in the folder `dir`.
pub fn path_for(dir: &Vec<String>, name: &str) -> (r: Vec<String>)
    ensures
        texts(r@) == texts(dir@).push(file_name_of(name@)),
{
    let mut r: Vec<String> = Vec::new();
    let n: usize = dir.len();
    for i in 0..n
        invariant
            n == dir@.len(),
            r@.len() == i,
            forall|m: int| 0 <= m < i ==> (#[trigger] r@[m])@ == dir@[m]@,
    {
        r.push(dir[i].clone());
    }
    r.push(file_name(name));
    assert(texts(r@) =~= texts(dir@).push(file_name_of(name@)));
    r
}

/// What is to be written, and where, to save a preset.
pub struct SavePlan {
    /// The folder, which may have to be made first.
    pub dir: Vec<String>,
    pub path: Vec<String>,
    pub preset: Preset,
}

/// What is to be written, and where, to save `values` as the preset `name`.
pub fn save_preset(dir: Vec<String>, name: &str, values: Vec<(String, Single)>) -> (r: SavePlan)
    ensures
        r.dir == dir,
        texts(r.path@) == texts(dir@).push(file_name_of(name@)),
        r.preset.name@ == name@,
        r.preset.values == values,
{
    let path = path_for(&dir, name);
    SavePlan { dir, path, preset: Preset::new(name, values) }
}

/// The file to read to load the preset `name`.
pub fn load_preset(dir: &Vec<String>, name: &str) -> (path: Vec<String>)
    ensures
        texts(path@) == texts(dir@).push(file_name_of(name@)),
{
    path_for(dir, name)
}

/// The file to remove to delete the preset `name`.
pub fn delete_preset(dir: &Vec<String>, name: &str) -> (path: Vec<String>)
    ensures
        texts(path@) == texts(dir@).push(file_name_of(name@)),
{
    path_for(dir, name)
}

/// Whatever its name, a preset's file holds no character that would lead out of
/// the folder.
pub proof fn lemma_file_stays_in_folder(name: Seq<char>)
    ensures
        forall|k: int|
            0 <= k < file_name_of(name).len() ==> !path_char(#[trigger] file_name_of(name)[k]),
        file_name_of(name).len() > 5,
{
    reveal_strlit("untitled");
    reveal_strlit(".json");
    let stem = trimmed(sanitized(name));
    lemma_trimmed(sanitized(name));
    lemma_sanitized(name);
    assert forall|k: int| 0 <= k < file_name_of(name).len() implies !path_char(
        #[trigger] file_name_of(name)[k],
    ) by {
        if stem.len() > 0 && k < stem.len() {
            assert(stem.contains(stem[k]));
            assert(sanitized(name).contains(stem[k]));
        }
    }
}

proof fn lemma_sanitized(s: Seq<char>)
    ensures
        forall|c: char| sanitized(s).contains(c) ==> !path_char(c),
{
    broadcast use vstd::seq_lib::group_filter_ensures;

    let keep = |c: char| !path_char(c);
    assert forall|c: char| sanitized(s).contains(c) implies !path_char(c) by {
        let k = choose|k: int| 0 <= k < s.filter(keep).len() && s.filter(keep)[k] == c;
        assert(keep(s.filter(keep)[k]));
    }
}

/// Two names lead to the same file just where nothing but white space around them
/// and characters that no file name may hold tells them apart.
pub proof fn lemma_same_file(a: Seq<char>, b: Seq<char>)
    ensures
        file_name_of(a) == file_name_of(b) <==> stem_of(a) == stem_of(b),
{
    let end = ".json"@;
    if file_name_of(a) == file_name_of(b) {
        assert(file_name_of(a).take(stem_of(a).len() as int) =~= stem_of(a));
        assert(file_name_of(b).take(stem_of(b).len() as int) =~= stem_of(b));
        assert(file_name_of(a).len() == stem_of(a).len() + end.len());
    }
}

/// A file name in use as a name leads to the same file again: nothing in it needs
/// to be taken out.
pub proof fn lemma_sanitizing_settles(s: Seq<char>)
    ensures
        sanitized(sanitized(s)) == sanitized(s),
{
    lemma_sanitized(s);
    lemma_clean_stays(sanitized(s));
}

proof fn lemma_clean_stays(s: Seq<char>)
    requires
        forall|c: char| s.contains(c) ==> !path_char(c),
    ensures
        sanitized(s) == s,
    decreases s.len(),
{
    reveal(Seq::filter);
    if s.len() > 0 {
        let rest = s.drop_last();
        assert forall|c: char| rest.contains(c) implies !path_char(c) by {
            let k = choose|k: int| 0 <= k < rest.len() && rest[k] == c;
            assert(s[k] == c);
        }
        lemma_clean_stays(rest);
        assert(s.contains(s.last()));
        assert(rest.push(s.last()) =~= s);
    }
}

// ----- Listing ----------------------------------------------------------------

/// The name of the preset that a file holds: what stands before `.json`, if
/// anything does.
pub open spec fn preset_name(file: Seq<char>) -> Option<Seq<char>> {
    if file.len() > 5 && file.skip(file.len() - 5) == ".json"@ {
        Some(file.take(file.len() - 5))
    } else {
        None
    }
}

fn preset_name_in(file: &str) -> (r: Option<String>)
    ensures
        maybe_text(r) == preset_name(file@),
{
    let chars = characters(file);
    let n: usize = chars.len();
    proof {
        reveal_strlit(".json");
    }
    if n > 5 && chars[n - 5] == '.' && chars[n - 4] == 'j' && chars[n - 3] == 's' && chars[n - 2] == 'o'
        && chars[n - 1] == 'n' {
        assert(file@.skip(file@.len() - 5) =~= ".json"@);
        assert(file@.subrange(0, n - 5) =~= file@.take(n - 5));
        Some(text_of(&chars, 0, n - 5))
    } else {
        proof {
            if file@.len() > 5 && file@.skip(file@.len() - 5) == ".json"@ {
                let end = file@.skip(file@.len() - 5);
                assert(end[0] == '.' && end[1] == 'j' && end[2] == 's' && end[3] == 'o' && end[4] == 'n');
            }
        }
        None
    }
}

/// `a` comes before `b` in a list, or is the same: texts go by their first
/// difference, and a text comes before its continuations.
pub open spec fn in_order(a: Seq<char>, b: Seq<char>) -> bool
    decreases a.len(),
{
    if a.len() == 0 {
        true
    } else if b.len() == 0 {
        false
    } else if a[0] != b[0] {
        (a[0] as int) < (b[0] as int)
    } else {
        in_order(a.drop_first(), b.drop_first())
    }
}

/// Every text comes before all that follow it.
pub open spec fn sorted(list: Seq<Seq<char>>) -> bool {
    forall|i: int, j: int| 0 <= i <= j < list.len() ==> in_order(#[trigger] list[i], #[trigger] list[j])
}

/// The order of texts is total: any two of them have an order, and only equal
/// texts have both.
pub proof fn lemma_order_is_total(a: Seq<char>, b: Seq<char>)
    ensures
        in_order(a, b) || in_order(b, a),
        in_order(a, b) && in_order(b, a) ==> a == b,
        in_order(a, a),
    decreases a.len(),
{
    if a.len() > 0 {
        lemma_order_is_total(a.drop_first(), a.drop_first());
        if b.len() > 0 && a[0] == b[0] {
            lemma_order_is_total(a.drop_first(), b.drop_first());
            if in_order(a, b) && in_order(b, a) {
                assert(a =~= seq![a[0]] + a.drop_first());
                assert(b =~= seq![b[0]] + b.drop_first());
            }
        }
    } else if b.len() == 0 {
        assert(a =~= b);
    }
}

/// The order of texts passes from one text to the next.
pub proof fn lemma_order_is_transitive(a: Seq<char>, b: Seq<char>, c: Seq<char>)
    requires
        in_order(a, b),
        in_order(b, c),
    ensures
        in_order(a, c),
    decreases a.len(),
{
    if a.len() > 0 && a[0] == b[0] && b[0] == c[0] {
        lemma_order_is_transitive(a.drop_first(), b.drop_first(), c.drop_first());
    }
}

fn comes_first(a: &str, b: &str) -> (r: bool)
    ensures
        r == in_order(a@, b@),
{
    let x = characters(a);
    let y = characters(b);
    let n: usize = x.len();
    let m: usize = y.len();
    let mut i: usize = 0;
    assert(x@.skip(0) =~= a@);
    assert(y@.skip(0) =~= b@);
    while i < n && i < m
        invariant
            n == x@.len(),
            m == y@.len(),
            i <= n,
            i <= m,
            in_order(a@, b@) == in_order(x@.skip(i as int), y@.skip(i as int)),
        decreases n - i,
    {
        assert(x@.skip(i as int).drop_first() =~= x@.skip(i + 1));
        assert(y@.skip(i as int).drop_first() =~= y@.skip(i + 1));
        let c: char = x[i];
        let d: char = y[i];
        if c != d {
            return c < d;
        }
        i = i + 1;
    }
    i == n
}

/// The presets among the files of a folder, in no particular order.
pub open spec fn presets_among(files: Seq<Seq<char>>) -> Seq<Seq<char>> {
    files.filter_map(|f: Seq<char>| preset_name(f))
}

/// Puts a name where it belongs in a sorted list.
fn insert_name(list: &mut Vec<String>, name: String)
    requires
        sorted(texts(old(list)@)),
    ensures
        sorted(texts(final(list)@)),
        texts(final(list)@).to_multiset() == texts(old(list)@).to_multiset().insert(name@),
{
    let n: usize = list.len();
    let mut k: usize = 0;
    let ghost before = texts(list@);
    while k < n && comes_first(list[k].as_str(), name.as_str())
        invariant
            n == list@.len(),
            k <= n,
            before == texts(list@),
            forall|i: int| 0 <= i < k ==> in_order(#[trigger] before[i], name@),
        decreases n - k,
    {
        k = k + 1;
    }
    proof {
        let after = before.insert(k as int, name@);
        if k < n {
            lemma_order_is_total(before[k as int], name@);
        }
        lemma_order_is_total(name@, name@);
        assert forall|i: int, j: int| 0 <= i <= j < after.len() implies in_order(
            #[trigger] after[i],
            #[trigger] after[j],
        ) by {
            if i == k && j > k {
                assert(in_order(before[k as int], before[j - 1]));
                lemma_order_is_transitive(name@, before[k as int], before[j - 1]);
            } else if i < k && j == k {
                assert(in_order(before[i], name@));
            } else if i != k && j != k {
                let i0 = if i < k { i } else { i - 1 };
                let j0 = if j < k { j } else { j - 1 };
                assert(in_order(before[i0], before[j0]));
            }
        }
        lemma_insert_counts(before, k as int, name@);
    }
    list.insert(k, name);
    assert(texts(list@) =~= before.insert(k as int, name@));
}

proof fn lemma_insert_counts(s: Seq<Seq<char>>, k: int, x: Seq<char>)
    requires
        0 <= k <= s.len(),
    ensures
        s.insert(k, x).to_multiset() == s.to_multiset().insert(x),
{
    broadcast use group_to_multiset_ensures;

    let t = s.insert(k, x);
    assert(t.remove(k) =~= s);
    to_multiset_remove(t, k);
    assert(t[k] == x);
    assert(t.contains(x));
    assert(t.to_multiset() =~= s.to_multiset().insert(x));
}

/// The presets in a folder, sorted, given the files in it. A folder that cannot
/// be read has none.
pub fn list_presets(files: Option<Vec<String>>) -> (r: Vec<String>)
    ensures
        sorted(texts(r@)),
        texts(r@).to_multiset() == (match files {
            Some(v) => presets_among(texts(v@)).to_multiset(),
            None => Seq::<Seq<char>>::empty().to_multiset(),
        }),
{
    let mut r: Vec<String> = Vec::new();
    assert(texts(r@) =~= Seq::<Seq<char>>::empty());
    let Some(v) = files else {
        return r;
    };
    let ghost all = texts(v@);
    let n: usize = v.len();
    assert(presets_among(all.take(0)) =~= Seq::<Seq<char>>::empty());
    for i in 0..n
        invariant
            n == v@.len(),
            all == texts(v@),
            sorted(texts(r@)),
            texts(r@).to_multiset() == presets_among(all.take(i as int)).to_multiset(),
    {
        let name = preset_name_in(v[i].as_str());
        proof {
            let f = |f: Seq<char>| preset_name(f);
            all.lemma_filter_map_take_succ(f, i as int);
            assert(all[i as int] == v@[i as int]@);
            if let Some(s) = preset_name(all[i as int]) {
                let prior = presets_among(all.take(i as int));
                assert(presets_among(all.take(i + 1)) =~= prior.push(s));
                vstd::seq_lib::to_multiset_build(prior, s);
            } else {
                assert(presets_among(all.take(i + 1)) =~= presets_among(all.take(i as int)));
            }
        }
        if let Some(s) = name {
            insert_name(&mut r, s);
        }
    }
    assert(all.take(n as int) =~= all);
    r
}

/// Every name listed belongs to a file whose path leads back to that file: saving
/// under a listed name writes the file it was listed for.
pub proof fn lemma_listed_name_leads_back(file: Seq<char>)
    requires
        preset_name(file) is Some,
        forall|c: char| file.contains(c) ==> !path_char(c),
        trimmed(preset_name(file)->0) == preset_name(file)->0,
    ensures
        file_name_of(preset_name(file)->0) == file,
{
    let stem = preset_name(file)->0;
    assert forall|c: char| stem.contains(c) implies !path_char(c) by {
        let k = choose|k: int| 0 <= k < stem.len() && stem[k] == c;
        assert(file[k] == c);
        assert(file.contains(c));
    }
    lemma_clean_stays(stem);
    reveal_strlit(".json");
    assert(file =~= stem + file.skip(file.len() - 5));
}

} // verus!
