//! Moving finished translations out of the TODO table of the locales into
//! the table that the application loads.
//!
//! Both tables are YAML mappings. [`Yaml`] holds what the move reads of a
//! YAML value: strings, mappings with their entries in order, tags, and any
//! other value as a number that the caller gives equal values.

use vstd::prelude::*;

verus! {

/// A key of a YAML mapping.
#[derive(Debug, PartialEq)]
pub enum YamlKey {
    /// A plain string.
    Str(String),
    /// Any other key, numbered so that equal keys get equal numbers, with
    /// the string it reads as when it is a tagged string.
    Other(u64, Option<String>),
}

/// A YAML value.
#[derive(Debug, PartialEq)]
pub enum Yaml {
    /// A plain string.
    Str(String),
    /// A mapping, its entries in order.
    Mapping(Vec<(YamlKey, Yaml)>),
    /// A tagged value: the tag, numbered so that equal tags get equal
    /// numbers, and the value.
    Tagged(u64, Box<Yaml>),
    /// Any other value, numbered so that equal values get equal numbers.
    Other(u64),
}

/// What a key is, as a mathematical value.
pub enum KeyV {
    Str(Seq<char>),
    Other(u64, Option<Seq<char>>),
}

/// What a YAML value is, as a mathematical value.
pub enum YamlV {
    Str(Seq<char>),
    Mapping(Seq<(KeyV, YamlV)>),
    Tagged(u64, Box<YamlV>),
    Other(u64),
}

/// Entries of a mapping, as mathematical values.
pub type EntriesV = Seq<(KeyV, YamlV)>;

impl YamlKey {
    pub open spec fn view_of(self) -> KeyV {
        match self {
            YamlKey::Str(s) => KeyV::Str(s@),
            YamlKey::Other(n, s) => KeyV::Other(
                n,
                match s {
                    Some(t) => Some(t@),
                    None => None,
                },
            ),
        }
    }
}

impl Yaml {
    pub open spec fn view_of(self) -> YamlV
        decreases self,
    {
        match self {
            Yaml::Str(s) => YamlV::Str(s@),
            Yaml::Mapping(v) => YamlV::Mapping(entries_view(v@)),
            Yaml::Tagged(t, b) => YamlV::Tagged(t, Box::new((*b).view_of())),
            Yaml::Other(n) => YamlV::Other(n),
        }
    }
}

/// The entries `s` as mathematical values.
pub open spec fn entries_view(s: Seq<(YamlKey, Yaml)>) -> EntriesV
    decreases s,
{
    if s.len() == 0 {
        Seq::empty()
    } else {
        entries_view(s.drop_last()).push((s.last().0.view_of(), s.last().1.view_of()))
    }
}

/// Keys that a mapping treats as the same key.
pub open spec fn key_eq(a: KeyV, b: KeyV) -> bool {
    match (a, b) {
        (KeyV::Str(x), KeyV::Str(y)) => x == y,
        (KeyV::Other(i, _), KeyV::Other(j, _)) => i == j,
        _ => false,
    }
}

/// The string a key reads as, if any.
pub open spec fn key_str(k: KeyV) -> Option<Seq<char>> {
    match k {
        KeyV::Str(s) => Some(s),
        KeyV::Other(_, s) => s,
    }
}

/// The string a value reads as, looking through tags.
pub open spec fn as_str(y: YamlV) -> Option<Seq<char>>
    decreases y,
{
    match y {
        YamlV::Str(s) => Some(s),
        YamlV::Tagged(_, b) => as_str(*b),
        _ => None,
    }
}

/// The mapping a value is, looking through tags.
pub open spec fn as_map(y: YamlV) -> Option<EntriesV>
    decreases y,
{
    match y {
        YamlV::Mapping(m) => Some(m),
        YamlV::Tagged(_, b) => as_map(*b),
        _ => None,
    }
}

/// The position of the first entry of `m` with key `k`, or -1.
pub open spec fn find(m: EntriesV, k: KeyV) -> int {
    if exists|i: int| 0 <= i < m.len() && key_eq(#[trigger] m[i].0, k) {
        choose|i: int| 0 <= i < m.len() && key_eq(#[trigger] m[i].0, k) && forall|j: int| 0 <= j < i ==> !key_eq(#[trigger] m[j].0, k)
    } else {
        -1
    }
}

/// `m` after inserting `v` under `k`: the value of the entry with that key
/// replaced in place, or a new last entry.
pub open spec fn map_insert(m: EntriesV, k: KeyV, v: YamlV) -> EntriesV {
    let i = find(m, k);
    if i >= 0 {
        m.update(i, (m[i].0, v))
    } else {
        m.push((k, v))
    }
}

/// `m` after removing the entry with key `k`: the last entry takes its
/// place.
pub open spec fn map_remove(m: EntriesV, k: KeyV) -> EntriesV {
    let i = find(m, k);
    if i >= 0 {
        m.update(i, m.last()).drop_last()
    } else {
        m
    }
}

/// `dst` with the entries of `src` merged in, in order (see
/// [`merge_one`]).
pub open spec fn merge_entries(dst: EntriesV, src: EntriesV) -> EntriesV
    decreases src,
{
    if src.len() == 0 {
        dst
    } else {
        merge_one(merge_entries(dst, src.drop_last()), src.last())
    }
}

/// `d` with the entry `e` merged in: when its value and the value under
/// its key in `d` are both mappings, the one is merged into the other;
/// else `e` is inserted.
pub open spec fn merge_one(d: EntriesV, e: (KeyV, YamlV)) -> EntriesV
    decreases e,
{
    let i = find(d, e.0);
    if i >= 0 && d[i].1 is Mapping && e.1 is Mapping {
        d.update(i, (d[i].0, YamlV::Mapping(merge_entries(d[i].1->Mapping_0, e.1->Mapping_0))))
    } else {
        map_insert(d, e.0, e.1)
    }
}

proof fn lemma_find(m: EntriesV, k: KeyV)
    ensures
        -1 <= find(m, k) < m.len(),
        find(m, k) >= 0 ==> key_eq(m[find(m, k)].0, k),
        find(m, k) >= 0 ==> forall|j: int| 0 <= j < find(m, k) ==> !key_eq(#[trigger] m[j].0, k),
        find(m, k) < 0 ==> forall|j: int| 0 <= j < m.len() ==> !key_eq(#[trigger] m[j].0, k),
{
    if exists|i: int| 0 <= i < m.len() && key_eq(#[trigger] m[i].0, k) {
        let w = choose|i: int| 0 <= i < m.len() && key_eq(#[trigger] m[i].0, k);
        lemma_first_match(m, k, w);
    }
}

proof fn lemma_first_match(m: EntriesV, k: KeyV, w: int)
    requires
        0 <= w < m.len(),
        key_eq(m[w].0, k),
    ensures
        exists|i: int| 0 <= i < m.len() && key_eq(#[trigger] m[i].0, k) && forall|j: int| 0 <= j < i ==> !key_eq(#[trigger] m[j].0, k),
    decreases w,
{
    if exists|j: int| 0 <= j < w && key_eq(#[trigger] m[j].0, k) {
        let j = choose|j: int| 0 <= j < w && key_eq(#[trigger] m[j].0, k);
        lemma_first_match(m, k, j);
    } else {
        assert(0 <= w < m.len() && key_eq(m[w].0, k) && forall|j: int| 0 <= j < w ==> !key_eq(#[trigger] m[j].0, k));
    }
}

/// The entries of a prefix grow one entry at a time.
proof fn lemma_entries_take(s: Seq<(YamlKey, Yaml)>, k: int)
    requires
        0 <= k < s.len(),
    ensures
        entries_view(s.take(k + 1)) == entries_view(s.take(k)).push((s[k].0.view_of(), s[k].1.view_of())),
{
    assert(s.take(k + 1).drop_last() =~= s.take(k));
}

proof fn lemma_entries_len(s: Seq<(YamlKey, Yaml)>)
    ensures
        entries_view(s).len() == s.len(),
        forall|i: int| 0 <= i < s.len() ==> #[trigger] entries_view(s)[i] == (s[i].0.view_of(), s[i].1.view_of()),
    decreases s.len(),
{
    if s.len() > 0 {
        lemma_entries_len(s.drop_last());
    }
}

fn same_key(a: &YamlKey, b: &YamlKey) -> (r: bool)
    ensures
        r == key_eq(a.view_of(), b.view_of()),
{
    match (a, b) {
        (YamlKey::Str(x), YamlKey::Str(y)) => *x == *y,
        (YamlKey::Other(i, _), YamlKey::Other(j, _)) => *i == *j,
        _ => false,
    }
}

fn clone_key(k: &YamlKey) -> (r: YamlKey)
    ensures
        r.view_of() == k.view_of(),
{
    match k {
        YamlKey::Str(s) => YamlKey::Str(s.clone()),
        YamlKey::Other(n, s) => YamlKey::Other(
            *n,
            match s {
                Some(t) => Some(t.clone()),
                None => None,
            },
        ),
    }
}

/// A copy of `y`.
pub fn clone_yaml(y: &Yaml) -> (r: Yaml)
    ensures
        r.view_of() == y.view_of(),
    decreases y,
{
    match y {
        Yaml::Str(s) => Yaml::Str(s.clone()),
        Yaml::Mapping(v) => {
            let mut out: Vec<(YamlKey, Yaml)> = Vec::new();
            let mut k: usize = 0;
            while k < v.len()
                invariant
                    *y is Mapping,
                    y->Mapping_0 == *v,
                    k <= v@.len(),
                    entries_view(out@) == entries_view(v@.take(k as int)),
                decreases v@.len() - k,
            {
                let key = clone_key(&v[k].0);
                proof {
                    assert(y->Mapping_0 == *v);
                    assert(decreases_to!(*y => y->Mapping_0));
                    assert(decreases_to!(*v => v[k as int]));
                    assert(decreases_to!(v[k as int] => v[k as int].1));
                    assert(decreases_to!(*y => v[k as int].1));
                }
                let val = clone_yaml(&v[k].1);
                proof {
                    lemma_entries_take(v@, k as int);
                    assert(out@.push((key, val)).drop_last() =~= out@);
                }
                out.push((key, val));
                k = k + 1;
            }
            proof {
                assert(v@.take(v@.len() as int) =~= v@);
            }
            Yaml::Mapping(out)
        },
        Yaml::Tagged(t, b) => Yaml::Tagged(*t, Box::new(clone_yaml(&**b))),
        Yaml::Other(n) => Yaml::Other(*n),
    }
}


/// Position of the first entry of `m` with key `k`.
fn find_key(m: &Vec<(YamlKey, Yaml)>, k: &YamlKey) -> (r: Option<usize>)
    ensures
        match r {
            Some(i) => i < m@.len() && i as int == find(entries_view(m@), k.view_of()),
            None => find(entries_view(m@), k.view_of()) == -1,
        },
{
    let ghost e = entries_view(m@);
    let ghost kv = k.view_of();
    proof {
        lemma_entries_len(m@);
        lemma_find(e, kv);
    }
    let mut i: usize = 0;
    while i < m.len()
        invariant
            e == entries_view(m@),
            kv == k.view_of(),
            e.len() == m@.len(),
            forall|t: int| 0 <= t < m@.len() ==> #[trigger] e[t] == (m@[t].0.view_of(), m@[t].1.view_of()),
            i <= m@.len(),
            forall|j: int| 0 <= j < i ==> !key_eq(#[trigger] e[j].0, kv),
            -1 <= find(e, kv) < e.len(),
            find(e, kv) >= 0 ==> key_eq(e[find(e, kv)].0, kv),
            find(e, kv) >= 0 ==> forall|j: int| 0 <= j < find(e, kv) ==> !key_eq(#[trigger] e[j].0, kv),
            find(e, kv) < 0 ==> forall|j: int| 0 <= j < e.len() ==> !key_eq(#[trigger] e[j].0, kv),
        decreases m@.len() - i,
    {
        if same_key(&m[i].0, k) {
            proof {
                assert(key_eq(e[i as int].0, kv));
                let f = find(e, kv);
                if f != i {
                    if f >= 0 && f < i {
                        assert(!key_eq(e[f].0, kv));
                    }
                }
            }
            return Some(i);
        }
        i = i + 1;
    }
    None
}

/// Inserts `v` under `k`, as a YAML mapping does.
fn insert_entry(m: &mut Vec<(YamlKey, Yaml)>, k: YamlKey, v: Yaml)
    ensures
        entries_view(final(m)@) == map_insert(entries_view(old(m)@), k.view_of(), v.view_of()),
{
    let ghost pre = m@;
    let ghost kv = k.view_of();
    let ghost vv = v.view_of();
    proof {
        lemma_entries_len(pre);
    }
    match find_key(m, &k) {
        Some(i) => {
            let mut e = (YamlKey::Other(0, None), Yaml::Other(0));
            m.set_and_swap(i, &mut e);
            let (ok, _ov) = e;
            let mut e2 = (ok, v);
            m.set_and_swap(i, &mut e2);
            proof {
                lemma_entries_len(m@);
                assert(entries_view(m@) =~= entries_view(pre).update(i as int, (entries_view(pre)[i as int].0, vv)));
            }
        },
        None => {
            m.push((k, v));
            proof {
                assert(m@.drop_last() =~= pre);
            }
        },
    }
}

/// Removes the entry with key `k`, as a YAML mapping does: the last entry
/// takes its place.
fn remove_entry(m: &mut Vec<(YamlKey, Yaml)>, k: &YamlKey)
    ensures
        entries_view(final(m)@) == map_remove(entries_view(old(m)@), k.view_of()),
{
    let ghost pre = m@;
    proof {
        lemma_entries_len(pre);
    }
    match find_key(m, k) {
        Some(i) => {
            let _ = m.swap_remove(i);
            proof {
                lemma_entries_len(m@);
                let ep = entries_view(pre);
                assert(entries_view(m@) =~= ep.update(i as int, ep.last()).drop_last());
            }
        },
        None => {},
    }
}

/// Merge the entries of `src` into `dst`
///
/// In order: when the entry's value and the value under its key in `dst`
/// are both mappings, the one is merged into the other; else the entry is
/// inserted, replacing the value under its key.
pub fn merge_mapping(dst: &mut Vec<(YamlKey, Yaml)>, src: &Vec<(YamlKey, Yaml)>)
    ensures
        entries_view(final(dst)@) == merge_entries(entries_view(old(dst)@), entries_view(src@)),
    decreases src, 0nat,
{
    let ghost d0 = entries_view(dst@);
    let mut j: usize = 0;
    proof {
        assert(src@.take(0) =~= Seq::<(YamlKey, Yaml)>::empty());
        assert(entries_view(src@.take(0)) =~= Seq::<(KeyV, YamlV)>::empty());
    }
    while j < src.len()
        invariant
            d0 == entries_view(old(dst)@),
            j <= src@.len(),
            entries_view(dst@) == merge_entries(d0, entries_view(src@.take(j as int))),
        decreases src@.len() - j,
    {
        proof {
            lemma_entries_take(src@, j as int);
            assert(entries_view(src@.take(j + 1)).drop_last() =~= entries_view(src@.take(j as int)));
            assert(decreases_to!(*src => src[j as int]));
        }
        merge_entry(dst, &src[j]);
        j = j + 1;
    }
    proof {
        assert(src@.take(src@.len() as int) =~= src@);
    }
}

/// Merges the entry `e` into `dst` (see [`merge_one`]).
fn merge_entry(dst: &mut Vec<(YamlKey, Yaml)>, e: &(YamlKey, Yaml))
    ensures
        entries_view(final(dst)@) == merge_one(entries_view(old(dst)@), (e.0.view_of(), e.1.view_of())),
    decreases *e, 1nat,
{
    let ghost d = entries_view(dst@);
    proof {
        lemma_entries_len(dst@);
    }
    let found = find_key(dst, &e.0);
    if let Some(i) = found {
        let dst_is_map = match &dst[i].1 {
            Yaml::Mapping(_) => true,
            _ => false,
        };
        if dst_is_map {
            if let Yaml::Mapping(sm) = &e.1 {
                let mut t = (YamlKey::Other(0, None), Yaml::Other(0));
                dst.set_and_swap(i, &mut t);
                let (ok, ov) = t;
                if let Yaml::Mapping(mut dm) = ov {
                    proof {
                        assert(decreases_to!(*e => e.1));
                        assert(e.1->Mapping_0 == *sm);
                        assert(decreases_to!(e.1 => e.1->Mapping_0));
                    }
                    merge_mapping(&mut dm, sm);
                    let mut t2 = (ok, Yaml::Mapping(dm));
                    dst.set_and_swap(i, &mut t2);
                    proof {
                        lemma_entries_len(dst@);
                        assert(entries_view(dst@) =~= d.update(i as int, (d[i as int].0, YamlV::Mapping(merge_entries(d[i as int].1->Mapping_0, e.1.view_of()->Mapping_0)))));
                    }
                }
                return;
            }
        }
    }
    insert_entry(dst, clone_key(&e.0), clone_yaml(&e.1));
}

/// The key of the table's version entry.
pub open spec fn version_key() -> Seq<char> {
    seq!['_', 'v', 'e', 'r', 's', 'i', 'o', 'n']
}

/// The language every source text is written in.
pub open spec fn default_lang() -> Seq<char> {
    seq!['e', 'n']
}

/// The translations of the source text `text` worth moving, in order: that
/// of the default language, and each that differs from `text`.
pub open spec fn kept_langs(text: Seq<char>, langs: EntriesV) -> EntriesV
    decreases langs.len(),
{
    if langs.len() == 0 {
        Seq::empty()
    } else {
        let p = kept_langs(text, langs.drop_last());
        let e = langs.last();
        if key_str(e.0) == Some(default_lang()) || as_str(e.1) != Some(text) {
            map_insert(p, e.0, e.1)
        } else {
            p
        }
    }
}

/// Each entry of a TODO table but the version is a source text with a
/// table of translations, each a string.
pub open spec fn todo_ok(todo: EntriesV) -> bool {
    forall|i: int|
        0 <= i < todo.len() && key_str(#[trigger] todo[i].0) != Some(version_key()) ==> {
            &&& key_str(todo[i].0) is Some
            &&& as_map(todo[i].1) is Some
            &&& forall|j: int| 0 <= j < as_map(todo[i].1).unwrap().len() ==> (#[trigger] as_str(as_map(todo[i].1).unwrap()[j].1)) is Some
        }
}

/// The translations to move out of the TODO table, and how many source
/// texts have some: for each source text in order, the translations that
/// [`kept_langs`] keeps, when there are any.
pub open spec fn extract(todo: EntriesV) -> (EntriesV, int)
    decreases todo.len(),
{
    if todo.len() == 0 {
        (Seq::empty(), 0)
    } else {
        let (acc, n) = extract(todo.drop_last());
        let e = todo.last();
        if key_str(e.0) == Some(version_key()) {
            (acc, n)
        } else {
            let t = kept_langs(key_str(e.0).unwrap(), as_map(e.1).unwrap());
            if t.len() > 0 {
                (map_insert(acc, e.0, YamlV::Mapping(t)), n + 1)
            } else {
                (acc, n)
            }
        }
    }
}

proof fn lemma_extract_count(todo: EntriesV)
    ensures
        0 <= extract(todo).1 <= todo.len(),
    decreases todo.len(),
{
    if todo.len() > 0 {
        lemma_extract_count(todo.drop_last());
    }
}

fn key_as_str(k: &YamlKey) -> (r: Option<&String>)
    ensures
        match r {
            Some(s) => key_str(k.view_of()) == Some(s@),
            None => key_str(k.view_of()) is None,
        },
{
    match k {
        YamlKey::Str(s) => Some(s),
        YamlKey::Other(_, s) => match s {
            Some(t) => Some(t),
            None => None,
        },
    }
}

fn value_as_str(y: &Yaml) -> (r: Option<&String>)
    ensures
        match r {
            Some(s) => as_str(y.view_of()) == Some(s@),
            None => as_str(y.view_of()) is None,
        },
    decreases y,
{
    match y {
        Yaml::Str(s) => Some(s),
        Yaml::Tagged(_, b) => value_as_str(&**b),
        _ => None,
    }
}

fn value_as_map(y: &Yaml) -> (r: Option<&Vec<(YamlKey, Yaml)>>)
    ensures
        match r {
            Some(m) => as_map(y.view_of()) == Some(entries_view(m@)),
            None => as_map(y.view_of()) is None,
        },
    decreases y,
{
    match y {
        Yaml::Mapping(m) => Some(m),
        Yaml::Tagged(_, b) => value_as_map(&**b),
        _ => None,
    }
}

/// Picks the translations of `text` worth moving out of `lang_map`.
fn kept_translations(text: &String, lang_map: &Vec<(YamlKey, Yaml)>) -> (r: Vec<(YamlKey, Yaml)>)
    requires
        forall|j: int| 0 <= j < entries_view(lang_map@).len() ==> (#[trigger] as_str(entries_view(lang_map@)[j].1)) is Some,
    ensures
        entries_view(r@) == kept_langs(text@, entries_view(lang_map@)),
{
    let default_lang_name = "en".to_owned();
    proof {
        reveal_strlit("en");
        assert(default_lang_name@ =~= default_lang());
        lemma_entries_len(lang_map@);
        assert(lang_map@.take(0) =~= Seq::<(YamlKey, Yaml)>::empty());
    }
    let mut translations: Vec<(YamlKey, Yaml)> = Vec::new();
    let mut j: usize = 0;
    while j < lang_map.len()
        invariant
            default_lang_name@ == default_lang(),
            j <= lang_map@.len(),
            forall|t: int| 0 <= t < lang_map@.len() ==> #[trigger] entries_view(lang_map@)[t] == (lang_map@[t].0.view_of(), lang_map@[t].1.view_of()),
            forall|t: int| 0 <= t < entries_view(lang_map@).len() ==> (#[trigger] as_str(entries_view(lang_map@)[t].1)) is Some,
            entries_view(lang_map@).len() == lang_map@.len(),
            entries_view(translations@) == kept_langs(text@, entries_view(lang_map@.take(j as int))),
        decreases lang_map@.len() - j,
    {
        let lang = &lang_map[j].0;
        let translated = &lang_map[j].1;
        proof {
            lemma_entries_take(lang_map@, j as int);
            assert(entries_view(lang_map@.take(j + 1)).drop_last() =~= entries_view(lang_map@.take(j as int)));
            assert(as_str(entries_view(lang_map@)[j as int].1) is Some);
        }
        let translated_text = value_as_str(translated).unwrap();
        let is_default = match key_as_str(lang) {
            Some(l) => *l == default_lang_name,
            None => false,
        };
        if is_default || *translated_text != *text {
            insert_entry(&mut translations, clone_key(lang), clone_yaml(translated));
        }
        j = j + 1;
    }
    proof {
        assert(lang_map@.take(lang_map@.len() as int) =~= lang_map@);
    }
    translations
}

/// The translations to move out of the TODO table `todo`, and how many
/// source texts have some (see [`extract`]).
pub fn extract_translations(todo: &Vec<(YamlKey, Yaml)>) -> (r: (Vec<(YamlKey, Yaml)>, i32))
    requires
        todo_ok(entries_view(todo@)),
        todo@.len() < i32::MAX,
    ensures
        (entries_view(r.0@), r.1 as int) == extract(entries_view(todo@)),
        unique_keys(entries_view(todo@)) ==> r.1 == r.0@.len(),
        ({
            let ev = entries_view(todo@);
            unique_keys(ev) ==> forall|i: int, j: int|
                #![trigger as_map(ev[i].1).unwrap()[j]]
                0 <= i < ev.len() && key_str(ev[i].0) != Some(version_key()) && 0 <= j < as_map(ev[i].1).unwrap().len()
                    && worth_moving(key_str(ev[i].0), as_map(ev[i].1).unwrap()[j].0, as_map(ev[i].1).unwrap()[j].1) ==> moved(
                    entries_view(r.0@),
                    ev[i].0,
                    as_map(ev[i].1).unwrap()[j].0,
                )
        }),
        forall|s: int|
            0 <= s < entries_view(r.0@).len() ==> (#[trigger] entries_view(r.0@)[s]).1 is Mapping && entries_view(r.0@)[s].1->Mapping_0.len()
                > 0,
        ({
            let out = entries_view(r.0@);
            forall|s: int, u: int|
                #![trigger out[s].1->Mapping_0[u]]
                0 <= s < out.len() && out[s].1 is Mapping && 0 <= u < out[s].1->Mapping_0.len() ==> moved_from(
                    entries_view(todo@),
                    out[s].0,
                    out[s].1->Mapping_0[u].0,
                    out[s].1->Mapping_0[u].1,
                )
        }),
{
    let version = "_version".to_owned();
    proof {
        reveal_strlit("_version");
        assert(version@ =~= version_key());
        lemma_entries_len(todo@);
        assert(todo@.take(0) =~= Seq::<(YamlKey, Yaml)>::empty());
    }
    let mut extracted: Vec<(YamlKey, Yaml)> = Vec::new();
    let mut moved_count: i32 = 0;
    let mut i: usize = 0;
    while i < todo.len()
        invariant
            version@ == version_key(),
            i <= todo@.len(),
            todo@.len() < i32::MAX,
            todo_ok(entries_view(todo@)),
            entries_view(todo@).len() == todo@.len(),
            forall|t: int| 0 <= t < todo@.len() ==> #[trigger] entries_view(todo@)[t] == (todo@[t].0.view_of(), todo@[t].1.view_of()),
            (entries_view(extracted@), moved_count as int) == extract(entries_view(todo@.take(i as int))),
        decreases todo@.len() - i,
    {
        let key = &todo[i].0;
        let value = &todo[i].1;
        proof {
            lemma_entries_take(todo@, i as int);
            assert(entries_view(todo@.take(i + 1)).drop_last() =~= entries_view(todo@.take(i as int)));
            lemma_extract_count(entries_view(todo@.take(i as int)));
            lemma_entries_len(todo@.take(i as int));
        }
        let ks = key_as_str(key);
        let is_version = match ks {
            Some(s) => *s == version,
            None => false,
        };
        if !is_version {
            proof {
                let e = entries_view(todo@);
                assert(key_str(e[i as int].0) != Some(version_key()));
            }
            let text = ks.unwrap();
            let lang_map = value_as_map(value).unwrap();
            proof {
                let e = entries_view(todo@);
                assert(e[i as int].1 == value.view_of());
                assert(as_map(e[i as int].1).unwrap() == entries_view(lang_map@));
                assert forall|j: int| 0 <= j < entries_view(lang_map@).len() implies (#[trigger] as_str(entries_view(lang_map@)[j].1)) is Some by {
                    assert(as_str(as_map(e[i as int].1).unwrap()[j].1) is Some);
                }
            }
            let translations = kept_translations(text, lang_map);
            if translations.len() > 0 {
                proof {
                    lemma_entries_len(translations@);
                }
                insert_entry(&mut extracted, clone_key(key), Yaml::Mapping(translations));
                moved_count = moved_count + 1;
            } else {
                proof {
                    lemma_entries_len(translations@);
                }
            }
        }
        i = i + 1;
    }
    proof {
        assert(todo@.take(todo@.len() as int) =~= todo@);
        let ev = entries_view(todo@);
        let out = entries_view(extracted@);
        assert forall|i: int, j: int|
            #![trigger as_map(ev[i].1).unwrap()[j]]
            0 <= i < ev.len() && key_str(ev[i].0) != Some(version_key()) && 0 <= j < as_map(ev[i].1).unwrap().len()
                && worth_moving(key_str(ev[i].0), as_map(ev[i].1).unwrap()[j].0, as_map(ev[i].1).unwrap()[j].1)
                && unique_keys(ev) implies moved(out, ev[i].0, as_map(ev[i].1).unwrap()[j].0) by {
            lemma_extract_moves_worthy(ev, i, j);
        }
        assert forall|s: int, u: int|
            #![trigger out[s].1->Mapping_0[u]]
            0 <= s < out.len() && out[s].1 is Mapping && 0 <= u < out[s].1->Mapping_0.len() implies moved_from(
                ev,
                out[s].0,
                out[s].1->Mapping_0[u].0,
                out[s].1->Mapping_0[u].1,
            ) by {
            lemma_extract_moves_only_worthy(ev, s, u);
        }
        assert forall|s: int| 0 <= s < out.len() implies (#[trigger] out[s]).1 is Mapping && out[s].1->Mapping_0.len() > 0 by {
            lemma_extract_moves_only_worthy(ev, s, 0);
        }
        if unique_keys(ev) {
            lemma_extract_counts_tables(ev);
            lemma_entries_len(extracted@);
        }
    }
    (extracted, moved_count)
}


/// `y` with the mapping that it is, looking through tags, replaced by `m`.
pub open spec fn set_map(y: YamlV, m: EntriesV) -> YamlV
    decreases y,
{
    match y {
        YamlV::Tagged(t, b) => YamlV::Tagged(t, Box::new(set_map(*b, m))),
        _ => YamlV::Mapping(m),
    }
}

/// `m` without the entries under the keys of `langs`, removed in order.
pub open spec fn remove_keys(m: EntriesV, langs: EntriesV) -> EntriesV
    decreases langs.len(),
{
    if langs.len() == 0 {
        m
    } else {
        map_remove(remove_keys(m, langs.drop_last()), langs.last().0)
    }
}

/// The TODO table after the translations `tr` left it, in order: each
/// leaves the table of its source text, and a source text left with none
/// leaves the TODO table.
pub open spec fn remove_spec(todo: EntriesV, tr: EntriesV) -> EntriesV
    decreases tr.len(),
{
    if tr.len() == 0 {
        todo
    } else {
        let t = remove_spec(todo, tr.drop_last());
        let e = tr.last();
        let i = find(t, e.0);
        let inner = remove_keys(as_map(t[i].1).unwrap(), as_map(e.1).unwrap());
        if inner.len() == 0 {
            map_remove(t, e.0)
        } else {
            t.update(i, (t[i].0, set_map(t[i].1, inner)))
        }
    }
}

/// Each source text of `tr` is in the TODO table when its turn comes, with
/// a table of translations, and `tr` holds a table for it.
pub open spec fn remove_ok(todo: EntriesV, tr: EntriesV) -> bool
    decreases tr.len(),
{
    if tr.len() == 0 {
        true
    } else {
        let t = remove_spec(todo, tr.drop_last());
        let e = tr.last();
        &&& remove_ok(todo, tr.drop_last())
        &&& find(t, e.0) >= 0
        &&& as_map(t[find(t, e.0)].1) is Some
        &&& as_map(e.1) is Some
    }
}

/// Takes the keys of `langs` out of the mapping that `y` is, looking
/// through tags; says whether the mapping is then empty.
fn remove_langs(y: Yaml, langs: &Vec<(YamlKey, Yaml)>) -> (r: (Yaml, bool))
    requires
        as_map(y.view_of()) is Some,
    ensures
        r.0.view_of() == set_map(y.view_of(), remove_keys(as_map(y.view_of()).unwrap(), entries_view(langs@))),
        r.1 == (remove_keys(as_map(y.view_of()).unwrap(), entries_view(langs@)).len() == 0),
    decreases y,
{
    match y {
        Yaml::Tagged(t, b) => {
            let (inner, empty) = remove_langs(*b, langs);
            (Yaml::Tagged(t, Box::new(inner)), empty)
        },
        Yaml::Mapping(mut m) => {
            let ghost m0 = entries_view(m@);
            proof {
                lemma_entries_len(langs@);
                assert(langs@.take(0) =~= Seq::<(YamlKey, Yaml)>::empty());
            }
            let mut j: usize = 0;
            while j < langs.len()
                invariant
                    j <= langs@.len(),
                    entries_view(m@) == remove_keys(m0, entries_view(langs@.take(j as int))),
                decreases langs@.len() - j,
            {
                proof {
                    lemma_entries_take(langs@, j as int);
                    assert(entries_view(langs@.take(j + 1)).drop_last() =~= entries_view(langs@.take(j as int)));
                }
                remove_entry(&mut m, &langs[j].0);
                j = j + 1;
            }
            proof {
                assert(langs@.take(langs@.len() as int) =~= langs@);
                lemma_entries_len(m@);
            }
            let empty = m.len() == 0;
            (Yaml::Mapping(m), empty)
        },
        _ => {
            proof {
                assert(false);
            }
            (y, false)
        },
    }
}

/// Removes the moved translations `translations` from the TODO table
/// (see [`remove_spec`]).
#[verifier::spinoff_prover]
pub fn remove_entries(todo: &mut Vec<(YamlKey, Yaml)>, translations: &Vec<(YamlKey, Yaml)>)
    requires
        remove_ok(entries_view(old(todo)@), entries_view(translations@)),
    ensures
        entries_view(final(todo)@) == remove_spec(entries_view(old(todo)@), entries_view(translations@)),
{
    let ghost t0 = entries_view(todo@);
    proof {
        lemma_entries_len(translations@);
        assert(translations@.take(0) =~= Seq::<(YamlKey, Yaml)>::empty());
        lemma_remove_ok_prefix(t0, entries_view(translations@), translations@.len() as int);
    }
    let mut j: usize = 0;
    while j < translations.len()
        invariant
            t0 == entries_view(old(todo)@),
            j <= translations@.len(),
            entries_view(translations@).len() == translations@.len(),
            forall|k: int| 0 <= k < translations@.len() ==> #[trigger] entries_view(translations@)[k] == (translations@[k].0.view_of(), translations@[k].1.view_of()),
            forall|k: int| 0 <= k <= translations@.len() ==> remove_ok(t0, #[trigger] entries_view(translations@).take(k)),
            entries_view(todo@) == remove_spec(t0, entries_view(translations@.take(j as int))),
        decreases translations@.len() - j,
    {
        let ghost trj = entries_view(translations@.take(j as int));
        let ghost trj1 = entries_view(translations@.take(j + 1));
        let ghost t = entries_view(todo@);
        proof {
            lemma_entries_take(translations@, j as int);
            assert(trj1.drop_last() =~= trj);
            lemma_entries_len(translations@.take(j + 1));
            assert(entries_view(translations@).take(j + 1) =~= trj1) by {
                lemma_entries_len(translations@);
            }
            assert(remove_ok(t0, trj1));
            lemma_entries_len(todo@);
        }
        let key = &translations[j].0;
        let value = &translations[j].1;
        let i = find_key(todo, key).unwrap();
        let lang_map = value_as_map(value).unwrap();
        let mut slot = (YamlKey::Other(0, None), Yaml::Other(0));
        todo.set_and_swap(i, &mut slot);
        let (k_old, v_old) = slot;
        proof {
            assert(t[i as int] == (k_old.view_of(), v_old.view_of()));
        }
        let (v_new, empty) = remove_langs(v_old, lang_map);
        let mut back = (k_old, v_new);
        todo.set_and_swap(i, &mut back);
        proof {
            lemma_entries_len(todo@);
            let inner = remove_keys(as_map(t[i as int].1).unwrap(), as_map(trj1.last().1).unwrap());
            assert(entries_view(todo@) =~= t.update(i as int, (t[i as int].0, set_map(t[i as int].1, inner))));
        }
        if empty {
            let ghost t1 = entries_view(todo@);
            remove_entry(todo, key);
            proof {
                lemma_find_update_key(t, i as int, t1[i as int].1, trj1.last().0);
                let mt = map_remove(t, trj1.last().0);
                let mt1 = map_remove(t1, trj1.last().0);
                assert(mt1 =~= mt);
            }
        }
        j = j + 1;
    }
    proof {
        assert(translations@.take(translations@.len() as int) =~= translations@);
    }
}

/// Each prefix of a list of moves that [`remove_ok`] accepts is accepted.
proof fn lemma_remove_ok_prefix(todo: EntriesV, tr: EntriesV, n: int)
    requires
        remove_ok(todo, tr),
        n == tr.len(),
    ensures
        forall|k: int| 0 <= k <= n ==> remove_ok(todo, #[trigger] tr.take(k)),
    decreases n,
{
    assert(tr.take(n) =~= tr);
    if n > 0 {
        lemma_remove_ok_prefix(todo, tr.drop_last(), n - 1);
        assert forall|k: int| 0 <= k <= n implies remove_ok(todo, #[trigger] tr.take(k)) by {
            if k < n {
                assert(tr.drop_last().take(k) =~= tr.take(k));
            }
        }
    }
}

/// Changing the value at `i` keeps where keys are found.
proof fn lemma_find_update_key(t: EntriesV, i: int, v: YamlV, k: KeyV)
    requires
        0 <= i < t.len(),
    ensures
        find(t.update(i, (t[i].0, v)), k) == find(t, k),
{
    let t1 = t.update(i, (t[i].0, v));
    assert forall|j: int| 0 <= j < t.len() implies #[trigger] t1[j].0 == t[j].0 by {}
    assert((exists|j: int| 0 <= j < t1.len() && key_eq(#[trigger] t1[j].0, k)) == (exists|j: int| 0 <= j < t.len() && key_eq(#[trigger] t[j].0, k))) by {
        if exists|j: int| 0 <= j < t1.len() && key_eq(#[trigger] t1[j].0, k) {
            let j = choose|j: int| 0 <= j < t1.len() && key_eq(#[trigger] t1[j].0, k);
            assert(key_eq(t[j].0, k));
        }
        if exists|j: int| 0 <= j < t.len() && key_eq(#[trigger] t[j].0, k) {
            let j = choose|j: int| 0 <= j < t.len() && key_eq(#[trigger] t[j].0, k);
            assert(key_eq(t1[j].0, k));
        }
    }
    lemma_find(t, k);
    lemma_find(t1, k);
    let f = find(t, k);
    let f1 = find(t1, k);
    if f >= 0 && f1 >= 0 && f != f1 {
        if f < f1 {
            assert(key_eq(t1[f].0, k));
        } else {
            assert(key_eq(t[f1].0, k));
        }
    }
}


/// Whether the TODO table `todo` is left with its version entry only: it
/// has at most one entry, and one under the plain key `_version`.
pub fn todo_finished(todo: &Vec<(YamlKey, Yaml)>) -> (r: bool)
    ensures
        r == (todo@.len() <= 1 && find(entries_view(todo@), KeyV::Str(version_key())) >= 0),
{
    let name = "_version".to_owned();
    proof {
        reveal_strlit("_version");
        assert(name@ =~= version_key());
    }
    let version = YamlKey::Str(name);
    todo.len() <= 1 && find_key(todo, &version).is_some()
}

/// No two entries of `m` have the same key.
pub open spec fn unique_keys(m: EntriesV) -> bool {
    forall|i: int, j: int| 0 <= i < j < m.len() ==> !key_eq(#[trigger] m[i].0, #[trigger] m[j].0)
}

/// Under unique keys, the entry with key `k` is where `find` looks.
proof fn lemma_find_unique(m: EntriesV, i: int, k: KeyV)
    requires
        unique_keys(m),
        0 <= i < m.len(),
        key_eq(m[i].0, k),
    ensures
        find(m, k) == i,
{
    lemma_find(m, k);
    let f = find(m, k);
    if f < 0 {
        assert(!key_eq(m[i].0, k));
    } else if f < i {
        assert(!key_eq(m[f].0, m[i].0));
    } else if f > i {
        assert(!key_eq(m[i].0, k));
    }
}

/// Some entry of `t` has key `k` and a table as its value.
spec fn present(t: EntriesV, k: KeyV) -> bool {
    exists|i: int| 0 <= i < t.len() && key_eq(#[trigger] t[i].0, k) && as_map(t[i].1) is Some
}

/// Every entry of the moved translations is a table, their keys differ,
/// and each is the key of a source text of the TODO table with a table of
/// translations.
spec fn moved_ok(todo: EntriesV, tr: EntriesV) -> bool {
    &&& unique_keys(tr)
    &&& forall|l: int| 0 <= l < tr.len() ==> (#[trigger] tr[l]).1 is Mapping
    &&& forall|l: int| 0 <= l < tr.len() ==> present(todo, (#[trigger] tr[l]).0)
}

proof fn lemma_extract_moved_ok(todo: EntriesV, n: int)
    requires
        todo_ok(todo),
        0 <= n <= todo.len(),
    ensures
        moved_ok(todo, extract(todo.take(n)).0),
    decreases n,
{
    let acc = extract(todo.take(n)).0;
    if n > 0 {
        let p = todo.take(n - 1);
        assert(todo.take(n).drop_last() =~= p);
        lemma_extract_moved_ok(todo, n - 1);
        let a0 = extract(p).0;
        let e = todo[n - 1];
        assert(todo.take(n).last() == e);
        if key_str(e.0) != Some(version_key()) {
            assert(todo_ok(todo));
            assert(key_str(todo[n - 1].0) != Some(version_key()));
            let t = kept_langs(key_str(e.0).unwrap(), as_map(e.1).unwrap());
            if t.len() > 0 {
                lemma_find(a0, e.0);
                let f = find(a0, e.0);
                assert(acc == map_insert(a0, e.0, YamlV::Mapping(t)));
                assert forall|l: int| 0 <= l < acc.len() implies present(todo, (#[trigger] acc[l]).0) by {
                    if l < a0.len() {
                        assert(acc[l].0 == a0[l].0);
                        assert(present(todo, (#[trigger] a0[l]).0));
                    } else {
                        assert(key_eq(todo[n - 1].0, acc[l].0));
                    }
                }
                assert forall|a: int, b: int| 0 <= a < b < acc.len() implies !key_eq(#[trigger] acc[a].0, #[trigger] acc[b].0) by {
                    if b < a0.len() {
                        assert(acc[a].0 == a0[a].0 && acc[b].0 == a0[b].0);
                    } else {
                        assert(acc[a].0 == a0[a].0);
                        assert(!key_eq(a0[a].0, e.0));
                    }
                }
                assert forall|l: int| 0 <= l < acc.len() implies (#[trigger] acc[l]).1 is Mapping by {
                    if l < a0.len() && l != f {
                        assert(acc[l] == a0[l]);
                    }
                }
            }
        }
    } else {
        assert(todo.take(0) =~= Seq::<(KeyV, YamlV)>::empty());
    }
}

/// The TODO table at step `j` of removing `tr`: keys still unique, and the
/// keys still to come present with tables.
spec fn removal_state_ok(t: EntriesV, tr: EntriesV, j: int) -> bool {
    &&& unique_keys(t)
    &&& forall|l: int| j <= l < tr.len() ==> present(t, (#[trigger] tr[l]).0)
}

#[verifier::spinoff_prover]
proof fn lemma_remove_forward(todo: EntriesV, tr: EntriesV, j: int)
    requires
        unique_keys(todo),
        moved_ok(todo, tr),
        0 <= j <= tr.len(),
    ensures
        remove_ok(todo, tr.take(j)),
        removal_state_ok(remove_spec(todo, tr.take(j)), tr, j),
    decreases j,
{
    if j == 0 {
        assert(tr.take(0) =~= Seq::<(KeyV, YamlV)>::empty());
        assert(remove_spec(todo, tr.take(0)) == todo);
        assert forall|l: int| 0 <= l < tr.len() implies present(todo, (#[trigger] tr[l]).0) by {
            assert(0 <= l < tr.len());
        }
    } else {
        lemma_remove_forward(todo, tr, j - 1);
        let p = tr.take(j - 1);
        assert(tr.take(j).drop_last() =~= p);
        let t = remove_spec(todo, p);
        let e = tr[j - 1];
        assert(tr.take(j).last() == e);
        assert(present(t, (#[trigger] tr[j - 1]).0));
        let i = choose|i: int| 0 <= i < t.len() && key_eq(#[trigger] t[i].0, (#[trigger] tr[j - 1]).0) && as_map(t[i].1) is Some;
        lemma_find_unique(t, i, e.0);
        assert(as_map(e.1) is Some);
        let inner = remove_keys(as_map(t[i].1).unwrap(), as_map(e.1).unwrap());
        let t2 = remove_spec(todo, tr.take(j));
        // every key still to come is not the key just handled
        assert forall|l: int| j <= l < tr.len() implies !key_eq(#[trigger] tr[l].0, e.0) by {
            assert(!key_eq(tr[j - 1].0, tr[l].0));
        }
        if inner.len() == 0 {
            assert(t2 == map_remove(t, e.0));
            let last = t.len() - 1;
            assert(t2 =~= t.update(i, t[last]).drop_last());
            assert forall|a: int, b: int| 0 <= a < b < t2.len() implies !key_eq(#[trigger] t2[a].0, #[trigger] t2[b].0) by {
                let ia = if a == i { last } else { a };
                let ib = if b == i { last } else { b };
                assert(t2[a] == t[ia] && t2[b] == t[ib]);
                if ia < ib {
                    assert(!key_eq(t[ia].0, t[ib].0));
                } else {
                    assert(!key_eq(t[ib].0, t[ia].0));
                }
            }
            assert forall|l: int| j <= l < tr.len() implies present(t2, (#[trigger] tr[l]).0) by {
                assert(present(t, (#[trigger] tr[l]).0));
                let x = choose|x: int| 0 <= x < t.len() && key_eq(#[trigger] t[x].0, (#[trigger] tr[l]).0) && as_map(t[x].1) is Some;
                assert(!key_eq(tr[l].0, e.0));
                assert(x != i);
                if x == last {
                    assert(t2[i] == t[x]);
                    assert(key_eq(t2[i].0, tr[l].0));
                } else {
                    assert(t2[x] == t[x]);
                    assert(key_eq(t2[x].0, tr[l].0));
                }
            }
        } else {
            assert(t2 == t.update(i, (t[i].0, set_map(t[i].1, inner))));
            assert forall|a: int, b: int| 0 <= a < b < t2.len() implies !key_eq(#[trigger] t2[a].0, #[trigger] t2[b].0) by {
                assert(t2[a].0 == t[a].0 && t2[b].0 == t[b].0);
            }
            assert forall|l: int| j <= l < tr.len() implies present(t2, (#[trigger] tr[l]).0) by {
                assert(present(t, (#[trigger] tr[l]).0));
                let x = choose|x: int| 0 <= x < t.len() && key_eq(#[trigger] t[x].0, (#[trigger] tr[l]).0) && as_map(t[x].1) is Some;
                assert(!key_eq(tr[l].0, e.0));
                assert(x != i);
                assert(t2[x] == t[x]);
                assert(key_eq(t2[x].0, tr[l].0));
            }
        }
    }
}

/// The translations extracted from a well-formed TODO table with distinct
/// keys can be removed from it: each source text is found, with its table
/// of translations, when its turn comes.
pub proof fn lemma_extracted_removable(todo: EntriesV)
    requires
        todo_ok(todo),
        unique_keys(todo),
    ensures
        remove_ok(todo, extract(todo).0),
{
    lemma_extract_moved_ok(todo, todo.len() as int);
    assert(todo.take(todo.len() as int) =~= todo);
    let tr = extract(todo).0;
    lemma_remove_forward(todo, tr, tr.len() as int);
    assert(tr.take(tr.len() as int) =~= tr);
}


/// Whether `todo` is a TODO table that the move can read: each entry but
/// the version is a source text with a table of string translations, and
/// no key occurs twice.
pub fn todo_readable(todo: &Vec<(YamlKey, Yaml)>) -> (r: bool)
    ensures
        r == (todo_ok(entries_view(todo@)) && unique_keys(entries_view(todo@))),
{
    let ghost e = entries_view(todo@);
    let name = "_version".to_owned();
    proof {
        reveal_strlit("_version");
        assert(name@ =~= version_key());
        lemma_entries_len(todo@);
    }
    let n = todo.len();
    let mut i: usize = 0;
    while i < n
        invariant
            e == entries_view(todo@),
            n == todo@.len() == e.len(),
            name@ == version_key(),
            forall|t: int| 0 <= t < n ==> #[trigger] e[t] == (todo@[t].0.view_of(), todo@[t].1.view_of()),
            i <= n,
            forall|a: int| 0 <= a < i && key_str(#[trigger] e[a].0) != Some(version_key()) ==> {
                &&& key_str(e[a].0) is Some
                &&& as_map(e[a].1) is Some
                &&& forall|j: int| 0 <= j < as_map(e[a].1).unwrap().len() ==> (#[trigger] as_str(as_map(e[a].1).unwrap()[j].1)) is Some
            },
            forall|a: int, b: int| 0 <= a < b < i ==> !key_eq(#[trigger] e[a].0, #[trigger] e[b].0),
        decreases n - i,
    {
        let mut b: usize = 0;
        while b < i
            invariant
                e == entries_view(todo@),
                n == todo@.len() == e.len(),
                forall|t: int| 0 <= t < n ==> #[trigger] e[t] == (todo@[t].0.view_of(), todo@[t].1.view_of()),
                b <= i < n,
                forall|a: int| 0 <= a < b ==> !key_eq(#[trigger] e[a].0, e[i as int].0),
            decreases i - b,
        {
            if same_key(&todo[b].0, &todo[i].0) {
                proof {
                    assert(key_eq(e[b as int].0, e[i as int].0));
                }
                return false;
            }
            b = b + 1;
        }
        let ks = key_as_str(&todo[i].0);
        let is_version = match ks {
            Some(s) => *s == name,
            None => false,
        };
        if !is_version {
            if ks.is_none() {
                return false;
            }
            proof {
                assert(key_str(e[i as int].0) != Some(version_key()));
            }
            match value_as_map(&todo[i].1) {
                None => {
                    proof {
                        assert(as_map(e[i as int].1) is None);
                    }
                    return false;
                },
                Some(m) => {
                    proof {
                        lemma_entries_len(m@);
                    }
                    let mut j: usize = 0;
                    while j < m.len()
                        invariant
                            e == entries_view(todo@),
                            i < e.len(),
                            e[i as int].1 == todo@[i as int].1.view_of(),
                            key_str(e[i as int].0) != Some(version_key()),
                            as_map(todo@[i as int].1.view_of()) == Some(entries_view(m@)),
                            j <= m@.len(),
                            entries_view(m@).len() == m@.len(),
                            forall|t: int| 0 <= t < m@.len() ==> #[trigger] entries_view(m@)[t] == (m@[t].0.view_of(), m@[t].1.view_of()),
                            forall|t: int| 0 <= t < j ==> (#[trigger] as_str(entries_view(m@)[t].1)) is Some,
                        decreases m@.len() - j,
                    {
                        if value_as_str(&m[j].1).is_none() {
                            proof {
                                assert(as_str(entries_view(m@)[j as int].1) is None);
                                assert(as_map(e[i as int].1) == Some(entries_view(m@)));
                                assert(as_str(as_map(e[i as int].1).unwrap()[j as int].1) is None);
                            }
                            return false;
                        }
                        j = j + 1;
                    }
                },
            }
        }
        i = i + 1;
    }
    true
}

/// Whether the translation `v` in language `lang` of the source text `text`
/// is worth moving: it is the default language's, or it differs from the
/// source text.
pub open spec fn worth_moving(text: Option<Seq<char>>, lang: KeyV, v: YamlV) -> bool {
    key_str(lang) == Some(default_lang()) || as_str(v) != text
}

/// The moved translations `out` hold, under the source text `src`, a
/// translation in the language `lang`.
pub open spec fn moved(out: EntriesV, src: KeyV, lang: KeyV) -> bool {
    exists|s: int, u: int|
        0 <= s < out.len() && key_eq(#[trigger] out[s].0, src) && out[s].1 is Mapping && 0 <= u < out[s].1->Mapping_0.len()
            && key_eq(#[trigger] out[s].1->Mapping_0[u].0, lang)
}

/// The translation `t` in language `lang` comes from the TODO table `todo`:
/// some source text with key `src` has a translation with that language
/// and value, worth moving.
pub open spec fn moved_from(todo: EntriesV, src: KeyV, lang: KeyV, t: YamlV) -> bool {
    exists|i: int, j: int|
        0 <= i < todo.len() && key_eq(#[trigger] todo[i].0, src) && key_str(todo[i].0) != Some(version_key()) && as_map(
            todo[i].1,
        ) is Some && 0 <= j < as_map(todo[i].1).unwrap().len() && key_eq(#[trigger] as_map(todo[i].1).unwrap()[j].0, lang)
            && as_map(todo[i].1).unwrap()[j].1 == t && worth_moving(key_str(todo[i].0), as_map(todo[i].1).unwrap()[j].0, t)
}

proof fn lemma_key_eq_facts()
    ensures
        forall|a: KeyV| #[trigger] key_eq(a, a),
        forall|a: KeyV, b: KeyV| #[trigger] key_eq(a, b) ==> key_eq(b, a),
        forall|a: KeyV, b: KeyV, c: KeyV| #[trigger] key_eq(a, b) && #[trigger] key_eq(b, c) ==> key_eq(a, c),
        forall|a: KeyV, b: KeyV| #[trigger] key_eq(a, b) ==> key_str(a) == key_str(b) || (a is Other && b is Other),
{
}

/// After an insert, every key that was there still is, and the inserted
/// key is there.
proof fn lemma_insert_keys(p: EntriesV, k: KeyV, v: YamlV)
    ensures
        forall|u: int| 0 <= u < p.len() ==> #[trigger] map_insert(p, k, v)[u].0 == p[u].0,
        map_insert(p, k, v).len() >= p.len(),
        exists|u: int| 0 <= u < map_insert(p, k, v).len() && key_eq(#[trigger] map_insert(p, k, v)[u].0, k) && map_insert(p, k, v)[u].1 == v,
        forall|u: int|
            0 <= u < map_insert(p, k, v).len() ==> #[trigger] map_insert(p, k, v)[u] == (if u < p.len() { p[u] } else { (k, v) }) || (
            key_eq(map_insert(p, k, v)[u].0, k) && map_insert(p, k, v)[u].1 == v),
{
    lemma_find(p, k);
    lemma_key_eq_facts();
    let r = map_insert(p, k, v);
    let f = find(p, k);
    if f >= 0 {
        assert(key_eq(r[f].0, k) && r[f].1 == v);
    } else {
        assert(key_eq(r[p.len() as int].0, k) && r[p.len() as int].1 == v);
    }
}

/// Every translation worth moving is kept.
proof fn lemma_kept_has(text: Seq<char>, m: EntriesV, j: int)
    requires
        0 <= j < m.len(),
        worth_moving(Some(text), m[j].0, m[j].1),
    ensures
        exists|u: int| 0 <= u < kept_langs(text, m).len() && key_eq(#[trigger] kept_langs(text, m)[u].0, m[j].0),
    decreases m.len(),
{
    let p = kept_langs(text, m.drop_last());
    let e = m.last();
    let k = kept_langs(text, m);
    lemma_key_eq_facts();
    if j < m.len() - 1 {
        assert(m.drop_last()[j] == m[j]);
        lemma_kept_has(text, m.drop_last(), j);
        let u = choose|u: int| 0 <= u < p.len() && key_eq(#[trigger] p[u].0, m[j].0);
        if worth_moving(Some(text), e.0, e.1) {
            assert(k == map_insert(p, e.0, e.1));
            lemma_insert_keys(p, e.0, e.1);
            assert(k[u].0 == p[u].0);
        } else {
            assert(k == p);
        }
        assert(0 <= u < k.len() && key_eq(k[u].0, m[j].0));
    } else {
        assert(e == m[j]);
        assert(k == map_insert(p, e.0, e.1));
        lemma_insert_keys(p, e.0, e.1);
    }
}

/// Every kept translation is one of `m`, worth moving.
proof fn lemma_kept_only(text: Seq<char>, m: EntriesV, u: int)
    requires
        0 <= u < kept_langs(text, m).len(),
    ensures
        exists|j: int|
            0 <= j < m.len() && key_eq(#[trigger] m[j].0, kept_langs(text, m)[u].0) && m[j].1 == kept_langs(text, m)[u].1
                && worth_moving(Some(text), m[j].0, m[j].1),
    decreases m.len(),
{
    let p = kept_langs(text, m.drop_last());
    let e = m.last();
    let k = kept_langs(text, m);
    lemma_key_eq_facts();
    if worth_moving(Some(text), e.0, e.1) {
        lemma_insert_keys(p, e.0, e.1);
        if k[u] == (if u < p.len() { p[u] } else { (e.0, e.1) }) {
            if u < p.len() {
                lemma_kept_only(text, m.drop_last(), u);
                let j = choose|j: int|
                    0 <= j < m.drop_last().len() && key_eq(#[trigger] m.drop_last()[j].0, p[u].0) && m.drop_last()[j].1 == p[u].1
                        && worth_moving(Some(text), m.drop_last()[j].0, m.drop_last()[j].1);
                assert(m[j] == m.drop_last()[j]);
            } else {
                assert(m[m.len() - 1] == e);
            }
        } else {
            assert(m[m.len() - 1] == e);
            assert(key_eq(m[m.len() - 1].0, k[u].0));
        }
    } else {
        lemma_kept_only(text, m.drop_last(), u);
        let j = choose|j: int|
            0 <= j < m.drop_last().len() && key_eq(#[trigger] m.drop_last()[j].0, p[u].0) && m.drop_last()[j].1 == p[u].1
                && worth_moving(Some(text), m.drop_last()[j].0, m.drop_last()[j].1);
        assert(m[j] == m.drop_last()[j]);
    }
}

proof fn lemma_extract_moves_prefix(todo: EntriesV, i: int, j: int, n: int)
    requires
        todo_ok(todo),
        unique_keys(todo),
        0 <= i < n <= todo.len(),
        key_str(todo[i].0) != Some(version_key()),
        0 <= j < as_map(todo[i].1).unwrap().len(),
        worth_moving(key_str(todo[i].0), as_map(todo[i].1).unwrap()[j].0, as_map(todo[i].1).unwrap()[j].1),
    ensures
        moved(extract(todo.take(n)).0, todo[i].0, as_map(todo[i].1).unwrap()[j].0),
    decreases n,
{
    lemma_key_eq_facts();
    let m = as_map(todo[i].1).unwrap();
    let lang = m[j].0;
    let pre = todo.take(n - 1);
    assert(todo.take(n).drop_last() =~= pre);
    assert(todo.take(n).last() == todo[n - 1]);
    let acc = extract(pre).0;
    let e = todo[n - 1];
    let out = extract(todo.take(n)).0;
    if i == n - 1 {
        assert(todo_ok(todo));
        assert(key_str(todo[i].0) is Some);
        let text = key_str(e.0).unwrap();
        lemma_kept_has(text, m, j);
        let t = kept_langs(text, m);
        let u = choose|u: int| 0 <= u < t.len() && key_eq(#[trigger] t[u].0, lang);
        assert(out == map_insert(acc, e.0, YamlV::Mapping(t)));
        lemma_insert_keys(acc, e.0, YamlV::Mapping(t));
        let s = choose|s: int| 0 <= s < out.len() && key_eq(#[trigger] out[s].0, e.0) && out[s].1 == YamlV::Mapping(t);
        assert(out[s].1->Mapping_0[u] == t[u]);
        assert(moved(out, todo[i].0, lang));
    } else {
        lemma_extract_moves_prefix(todo, i, j, n - 1);
        let (s, u) = choose|s: int, u: int|
            0 <= s < acc.len() && key_eq(#[trigger] acc[s].0, todo[i].0) && acc[s].1 is Mapping && 0 <= u < acc[s].1->Mapping_0.len()
                && key_eq(#[trigger] acc[s].1->Mapping_0[u].0, lang);
        if key_str(e.0) != Some(version_key()) {
            let t = kept_langs(key_str(e.0).unwrap(), as_map(e.1).unwrap());
            if t.len() > 0 {
                assert(!key_eq(todo[i].0, todo[n - 1].0));
                lemma_find(acc, e.0);
                let f = find(acc, e.0);
                assert(f != s);
                assert(out[s] == acc[s]);
                assert(moved(out, todo[i].0, lang));
            } else {
                assert(out == acc);
                assert(moved(out, todo[i].0, lang));
            }
        } else {
            assert(out == acc);
            assert(moved(out, todo[i].0, lang));
        }
    }
}

/// Extracting moves every translation worth moving: under its source text,
/// the moved table holds a translation in its language. In particular the
/// default language's translation is always moved.
pub proof fn lemma_extract_moves_worthy(todo: EntriesV, i: int, j: int)
    requires
        todo_ok(todo),
        unique_keys(todo),
        0 <= i < todo.len(),
        key_str(todo[i].0) != Some(version_key()),
        0 <= j < as_map(todo[i].1).unwrap().len(),
        worth_moving(key_str(todo[i].0), as_map(todo[i].1).unwrap()[j].0, as_map(todo[i].1).unwrap()[j].1),
    ensures
        moved(extract(todo).0, todo[i].0, as_map(todo[i].1).unwrap()[j].0),
{
    lemma_extract_moves_prefix(todo, i, j, todo.len() as int);
    assert(todo.take(todo.len() as int) =~= todo);
}

proof fn lemma_extract_only_prefix(todo: EntriesV, n: int, s: int, u: int)
    requires
        todo_ok(todo),
        0 <= n <= todo.len(),
        0 <= s < extract(todo.take(n)).0.len(),
    ensures
        extract(todo.take(n)).0[s].1 is Mapping,
        extract(todo.take(n)).0[s].1->Mapping_0.len() > 0,
        0 <= u < extract(todo.take(n)).0[s].1->Mapping_0.len() ==> moved_from(
            todo,
            extract(todo.take(n)).0[s].0,
            extract(todo.take(n)).0[s].1->Mapping_0[u].0,
            extract(todo.take(n)).0[s].1->Mapping_0[u].1,
        ),
    decreases n,
{
    lemma_key_eq_facts();
    if n == 0 {
        assert(todo.take(0) =~= Seq::<(KeyV, YamlV)>::empty());
    } else {
        let pre = todo.take(n - 1);
        assert(todo.take(n).drop_last() =~= pre);
        assert(todo.take(n).last() == todo[n - 1]);
        let acc = extract(pre).0;
        let e = todo[n - 1];
        let out = extract(todo.take(n)).0;
        if key_str(e.0) != Some(version_key()) {
            assert(key_str(todo[n - 1].0) is Some);
            let text = key_str(e.0).unwrap();
            let m = as_map(e.1).unwrap();
            let t = kept_langs(text, m);
            if t.len() > 0 {
                lemma_insert_keys(acc, e.0, YamlV::Mapping(t));
                if s < acc.len() && out[s] == acc[s] {
                    lemma_extract_only_prefix(todo, n - 1, s, u);
                } else {
                    assert(key_eq(out[s].0, e.0) && out[s].1 == YamlV::Mapping(t));
                    if 0 <= u < t.len() {
                        lemma_kept_only(text, m, u);
                        let j = choose|j: int|
                            0 <= j < m.len() && key_eq(#[trigger] m[j].0, t[u].0) && m[j].1 == t[u].1 && worth_moving(
                                Some(text),
                                m[j].0,
                                m[j].1,
                            );
                        assert(key_eq(todo[n - 1].0, out[s].0));
                        assert(as_map(todo[n - 1].1).unwrap() == m);
                        assert(key_eq(as_map(todo[n - 1].1).unwrap()[j].0, t[u].0));
                        assert(key_str(todo[n - 1].0) == Some(text));
                        assert(out[s].1->Mapping_0[u] == t[u]);
                        assert(moved_from(todo, out[s].0, t[u].0, t[u].1));
                    }
                }
            } else {
                lemma_extract_only_prefix(todo, n - 1, s, u);
            }
        } else {
            lemma_extract_only_prefix(todo, n - 1, s, u);
        }
    }
}

/// Extracting moves nothing else: each moved table holds some translation,
/// and each moved translation comes, with its value, from a source text of
/// the TODO table with the same key, and is worth moving.
pub proof fn lemma_extract_moves_only_worthy(todo: EntriesV, s: int, u: int)
    requires
        todo_ok(todo),
        0 <= s < extract(todo).0.len(),
    ensures
        extract(todo).0[s].1 is Mapping,
        extract(todo).0[s].1->Mapping_0.len() > 0,
        0 <= u < extract(todo).0[s].1->Mapping_0.len() ==> moved_from(
            todo,
            extract(todo).0[s].0,
            extract(todo).0[s].1->Mapping_0[u].0,
            extract(todo).0[s].1->Mapping_0[u].1,
        ),
{
    assert(todo.take(todo.len() as int) =~= todo);
    lemma_extract_only_prefix(todo, todo.len() as int, s, u);
}

proof fn lemma_extract_count_prefix(todo: EntriesV, n: int)
    requires
        todo_ok(todo),
        unique_keys(todo),
        0 <= n <= todo.len(),
    ensures
        extract(todo.take(n)).1 == extract(todo.take(n)).0.len(),
        forall|s: int|
            0 <= s < extract(todo.take(n)).0.len() ==> exists|i: int|
                0 <= i < n && key_eq(#[trigger] todo[i].0, #[trigger] extract(todo.take(n)).0[s].0),
    decreases n,
{
    lemma_key_eq_facts();
    if n == 0 {
        assert(todo.take(0) =~= Seq::<(KeyV, YamlV)>::empty());
    } else {
        let pre = todo.take(n - 1);
        assert(todo.take(n).drop_last() =~= pre);
        assert(todo.take(n).last() == todo[n - 1]);
        lemma_extract_count_prefix(todo, n - 1);
        let acc = extract(pre).0;
        let e = todo[n - 1];
        let out = extract(todo.take(n)).0;
        if key_str(e.0) != Some(version_key()) {
            let t = kept_langs(key_str(e.0).unwrap(), as_map(e.1).unwrap());
            if t.len() > 0 {
                lemma_find(acc, e.0);
                if find(acc, e.0) >= 0 {
                    let f = find(acc, e.0);
                    let i = choose|i: int| 0 <= i < n - 1 && key_eq(#[trigger] todo[i].0, #[trigger] acc[f].0);
                    assert(key_eq(todo[i].0, todo[n - 1].0));
                    assert(false);
                }
                assert(out == acc.push((e.0, YamlV::Mapping(t))));
                assert forall|s: int| 0 <= s < out.len() implies exists|i: int| 0 <= i < n && key_eq(#[trigger] todo[i].0, #[trigger] out[s].0) by {
                    if s < acc.len() {
                        assert(out[s] == acc[s]);
                        let i = choose|i: int| 0 <= i < n - 1 && key_eq(#[trigger] todo[i].0, #[trigger] acc[s].0);
                        assert(0 <= i < n && key_eq(todo[i].0, out[s].0));
                    } else {
                        assert(key_eq(todo[n - 1].0, out[s].0));
                    }
                }
            }
        }
    }
}

/// With one entry per source text, the count is the number of source texts
/// whose translations were moved: one moved table for each.
pub proof fn lemma_extract_counts_tables(todo: EntriesV)
    requires
        todo_ok(todo),
        unique_keys(todo),
    ensures
        extract(todo).1 == extract(todo).0.len(),
{
    lemma_extract_count_prefix(todo, todo.len() as int);
    assert(todo.take(todo.len() as int) =~= todo);
}

} // verus!
