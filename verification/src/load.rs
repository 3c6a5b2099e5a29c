//! Building the catalog from the translation root: one directory per
//! locale, each holding JSON files (possibly in subdirectories). A string
//! under `a.b` in `<locale>/dir/file.json` becomes the translation of
//! `"dir/file:a.b"` into that locale.

use vstd::prelude::*;
use crate::json::{spec_parse_json, document_pairs, visit_json_kv, pairs_view};
use crate::table::{Catalog, Table};
use crate::text::{chars_of, string_of_range, strings_view, push_char, insert_sorted, sorted_strict};

verus! {

/// A translation file: its path, one component per element, and its text.
#[derive(Debug, PartialEq, Eq)]
pub struct LocaleFile {
    pub path: Vec<String>,
    pub content: String,
}

/// A locale's directory: the locale's name, the directory's path (one
/// component per element) and every file found under it.
#[derive(Debug, PartialEq, Eq)]
pub struct LocaleDir {
    pub name: String,
    pub path: Vec<String>,
    pub files: Vec<LocaleFile>,
}

/// The position of the last `.` in `name`, if any.
pub open spec fn last_dot(name: Seq<char>) -> Option<int>
    decreases name.len(),
{
    if name.len() == 0 {
        None
    } else if name.last() == '.' {
        Some(name.len() - 1)
    } else {
        last_dot(name.drop_last())
    }
}

/// A file name without its extension, as `Path::file_stem` defines it: the
/// part before the last `.`, or the whole name when it has no `.`, when its
/// only `.` opens it, or when it is `..`.
pub open spec fn file_stem(name: Seq<char>) -> Seq<char> {
    if name == seq!['.', '.'] {
        name
    } else {
        match last_dot(name) {
            Some(d) => if d == 0 { name } else { name.subrange(0, d) },
            None => name,
        }
    }
}

/// Components joined with `/`.
pub open spec fn join_slash(parts: Seq<Seq<char>>) -> Seq<char>
    decreases parts.len(),
{
    if parts.len() == 0 {
        Seq::empty()
    } else if parts.len() == 1 {
        parts[0]
    } else {
        join_slash(parts.drop_last()) + seq!['/'] + parts.last()
    }
}

/// `prefix` is where `s` starts.
pub open spec fn is_prefix_of<A>(prefix: Seq<A>, s: Seq<A>) -> bool {
    prefix.len() <= s.len() && s.subrange(0, prefix.len() as int) == prefix
}

/// The name of a file under `root`: its path below `root`, without the
/// last component's extension, joined with `/`.
pub open spec fn spec_file_key(root: Seq<Seq<char>>, path: Seq<Seq<char>>) -> Seq<char> {
    let rel = path.subrange(root.len() as int, path.len() as int);
    if rel.len() == 0 {
        Seq::empty()
    } else {
        join_slash(rel.drop_last().push(file_stem(rel.last())))
    }
}

proof fn lemma_last_dot(name: Seq<char>)
    ensures
        match last_dot(name) {
            Some(d) => 0 <= d < name.len() && name[d] == '.' && forall|j: int| d < j < name.len() ==> name[j] != '.',
            None => forall|j: int| 0 <= j < name.len() ==> name[j] != '.',
        },
    decreases name.len(),
{
    if name.len() > 0 && name.last() != '.' {
        lemma_last_dot(name.drop_last());
        assert forall|j: int| 0 <= j < name.len() - 1 implies name[j] == name.drop_last()[j] by {}
    }
}

/// The name of a file without its extension (see `file_stem`).
pub fn stem(name: &String) -> (res: String)
    ensures
        res@ == file_stem(name@),
{
    let c = chars_of(name.as_str());
    let n = c.len();
    if n == 2 && c[0] == '.' && c[1] == '.' {
        assert(c@ =~= seq!['.', '.']);
        return string_of_range(&c, 0, n);
    }
    let mut i = n;
    while i > 0 && c[i - 1] != '.'
        invariant
            i <= n,
            n == c@.len(),
            forall|j: int| i <= j < n ==> c@[j] != '.',
        decreases i,
    {
        i = i - 1;
    }
    proof {
        lemma_last_dot(c@);
        if i > 0 {
            assert(last_dot(c@) == Some(i - 1)) by {
                match last_dot(c@) {
                    Some(d) => {
                        if d < i - 1 {
                            assert(c@[i - 1] == '.');
                        }
                    },
                    None => {
                        assert(c@[i - 1] == '.');
                    },
                }
            }
        } else {
            assert(last_dot(c@) is None) by {
                if let Some(d) = last_dot(c@) {
                    assert(c@[d] == '.');
                }
            }
        }
        if n == 2 {
            assert(c@ != seq!['.', '.']) by {
                if c@ == seq!['.', '.'] {
                    assert(c@[0] == '.');
                }
            }
        }
    }
    if i <= 1 {
        string_of_range(&c, 0, n)
    } else {
        string_of_range(&c, 0, i - 1)
    }
}

/// The name of the file at `path` under `root` (see `spec_file_key`), as
/// `a/b` for `<root>/a/b.json`.
pub fn file_key(root: &Vec<String>, path: &Vec<String>) -> (res: String)
    requires
        is_prefix_of(strings_view(root@), strings_view(path@)),
    ensures
        res@ == spec_file_key(strings_view(root@), strings_view(path@)),
{
    let ghost rv = strings_view(root@);
    let ghost pv = strings_view(path@);
    let ghost rel = pv.subrange(rv.len() as int, pv.len() as int);
    let start = root.len();
    let n = path.len();
    if start == n {
        return String::new();
    }
    let mut res = String::new();
    let mut i = start;
    while i + 1 < n
        invariant
            start <= i < n,
            n == path@.len(),
            start == rv.len(),
            pv == strings_view(path@),
            rel == pv.subrange(start as int, n as int),
            i == start ==> res@ == Seq::<char>::empty(),
            i > start ==> res@ == join_slash(rel.subrange(0, i - start)),
        decreases n - i,
    {
        proof {
            assert(rel.subrange(0, i + 1 - start).drop_last() =~= rel.subrange(0, i - start));
            assert(rel.subrange(0, i + 1 - start).last() == path@[i as int]@);
        }
        if i > start {
            push_char(&mut res, '/');
        }
        res.append(path[i].as_str());
        i = i + 1;
    }
    let last = stem(&path[n - 1]);
    proof {
        let full = rel.drop_last().push(file_stem(rel.last()));
        assert(rel.last() == path@[n - 1]@);
        assert(full.drop_last() =~= rel.subrange(0, i - start));
        assert(full.last() == last@);
        if i == start {
            assert(full.len() == 1);
        }
    }
    if i > start {
        push_char(&mut res, '/');
    }
    res.append(last.as_str());
    res
}

/// The position of the last `/` in `s`, if any.
pub open spec fn last_slash(s: Seq<char>) -> Option<int>
    decreases s.len(),
{
    if s.len() == 0 {
        None
    } else if s.last() == '/' {
        Some(s.len() - 1)
    } else {
        last_slash(s.drop_last())
    }
}

/// The pieces of `s` between its `/`s, in order (one piece when it has
/// none).
pub open spec fn split_slash(s: Seq<char>) -> Seq<Seq<char>>
    decreases s.len(),
{
    match last_slash(s) {
        None => seq![s],
        Some(d) => if 0 <= d < s.len() {
            split_slash(s.subrange(0, d)).push(s.subrange(d + 1, s.len() as int))
        } else {
            seq![s]
        },
    }
}

/// `s` holds no `/`.
pub open spec fn no_slash(s: Seq<char>) -> bool {
    forall|j: int| 0 <= j < s.len() ==> s[j] != '/'
}

proof fn lemma_last_slash_after(a: Seq<char>, b: Seq<char>)
    requires
        no_slash(b),
    ensures
        last_slash(a + seq!['/'] + b) == Some(a.len() as int),
    decreases b.len(),
{
    let s = a + seq!['/'] + b;
    if b.len() == 0 {
        assert(s.last() == '/');
    } else {
        assert(s.last() == b.last());
        assert(s.drop_last() =~= a + seq!['/'] + b.drop_last());
        lemma_last_slash_after(a, b.drop_last());
    }
}

proof fn lemma_last_slash_none(s: Seq<char>)
    requires
        no_slash(s),
    ensures
        last_slash(s) is None,
    decreases s.len(),
{
    if s.len() > 0 {
        assert(s.last() == s[s.len() - 1]);
        lemma_last_slash_none(s.drop_last());
    }
}

/// Splitting components joined with `/` at `/` gives them back, when none
/// of them holds a `/`.
pub proof fn law_split_join_slash(parts: Seq<Seq<char>>)
    requires
        parts.len() > 0,
        forall|i: int| 0 <= i < parts.len() ==> no_slash(#[trigger] parts[i]),
    ensures
        split_slash(join_slash(parts)) == parts,
    decreases parts.len(),
{
    if parts.len() == 1 {
        lemma_last_slash_none(parts[0]);
        assert(seq![parts[0]] =~= parts);
    } else {
        let a = join_slash(parts.drop_last());
        let b = parts.last();
        assert(no_slash(parts[parts.len() - 1]));
        let s = a + seq!['/'] + b;
        lemma_last_slash_after(a, b);
        assert(s.subrange(0, a.len() as int) =~= a);
        assert(s.subrange(a.len() + 1int, s.len() as int) =~= b);
        assert forall|i: int| 0 <= i < parts.drop_last().len() implies no_slash(#[trigger] parts.drop_last()[i]) by {
            assert(parts.drop_last()[i] == parts[i]);
        }
        law_split_join_slash(parts.drop_last());
        assert(parts.drop_last().push(b) =~= parts);
    }
}

proof fn lemma_file_stem_no_slash(name: Seq<char>)
    requires
        no_slash(name),
    ensures
        no_slash(file_stem(name)),
{
    lemma_last_dot(name);
    assert forall|j: int| 0 <= j < file_stem(name).len() implies file_stem(name)[j] != '/' by {
        assert(file_stem(name)[j] == name[j]);
    }
}

/// A file's name below its root, split at `/`, is every component of its
/// path below the root, in order, the last one without its extension, when
/// no component holds a `/`; the name is empty when the path is the root.
pub proof fn law_file_key_components(root: Seq<Seq<char>>, path: Seq<Seq<char>>)
    requires
        is_prefix_of(root, path),
        forall|i: int| root.len() <= i < path.len() ==> no_slash(#[trigger] path[i]),
    ensures
        path.len() == root.len() ==> spec_file_key(root, path) == Seq::<char>::empty(),
        path.len() > root.len() ==> {
            let key = split_slash(spec_file_key(root, path));
            &&& key.len() == path.len() - root.len()
            &&& forall|i: int| 0 <= i < key.len() - 1 ==> #[trigger] key[i] == path[root.len() + i]
            &&& key[key.len() - 1] == file_stem(path[path.len() - 1])
        },
{
    if path.len() > root.len() {
        let rel = path.subrange(root.len() as int, path.len() as int);
        let parts = rel.drop_last().push(file_stem(rel.last()));
        assert(no_slash(path[path.len() - 1]));
        lemma_file_stem_no_slash(rel.last());
        assert forall|i: int| 0 <= i < parts.len() implies no_slash(#[trigger] parts[i]) by {
            if i < parts.len() - 1 {
                assert(parts[i] == path[root.len() + i]);
                assert(no_slash(path[root.len() + i]));
            }
        }
        law_split_join_slash(parts);
        let key = split_slash(spec_file_key(root, path));
        assert forall|i: int| 0 <= i < key.len() - 1 implies #[trigger] key[i] == path[root.len() + i] by {
            assert(key[i] == parts[i]);
        }
    }
}

/// A catalog as values: translation key, then locale, then text.
pub type CatalogMap = Map<Seq<char>, Map<Seq<char>, Seq<char>>>;

/// `c` with `value` recorded as the translation of `key` into `locale`.
pub open spec fn catalog_add(c: CatalogMap, key: Seq<char>, locale: Seq<char>, value: Seq<char>) -> CatalogMap {
    c.insert(key, (if c.dom().contains(key) { c[key] } else { Map::empty() }).insert(locale, value))
}

/// The catalog key of `key` in the file named `file`: `file:key`.
pub open spec fn catalog_key(file: Seq<char>, key: Seq<char>) -> Seq<char> {
    file + seq![':'] + key
}

/// The file's text is JSON.
pub open spec fn file_parses(f: LocaleFile) -> bool {
    spec_parse_json(f.content@) is Some
}

/// Every file's text is JSON.
pub open spec fn files_parse(files: Seq<LocaleFile>) -> bool {
    forall|i: int| 0 <= i < files.len() ==> file_parses(#[trigger] files[i])
}

/// Every file of every directory is JSON.
pub open spec fn dirs_parse(dirs: Seq<LocaleDir>) -> bool {
    forall|i: int| 0 <= i < dirs.len() ==> files_parse((#[trigger] dirs[i]).files@)
}

/// The translations of a file (none when its text is not JSON).
pub open spec fn file_pairs(f: LocaleFile) -> Seq<(Seq<char>, Seq<char>)> {
    match spec_parse_json(f.content@) {
        Some(d) => document_pairs(d),
        None => Seq::empty(),
    }
}

/// `c` with the pairs of one file recorded in order; a later pair wins.
pub open spec fn add_pairs(c: CatalogMap, file: Seq<char>, locale: Seq<char>, pairs: Seq<(Seq<char>, Seq<char>)>) -> CatalogMap
    decreases pairs.len(),
{
    if pairs.len() == 0 {
        c
    } else {
        catalog_add(add_pairs(c, file, locale, pairs.drop_last()), catalog_key(file, pairs.last().0), locale, pairs.last().1)
    }
}

/// `c` with every file of a locale's directory recorded in order.
pub open spec fn add_files(c: CatalogMap, root: Seq<Seq<char>>, files: Seq<LocaleFile>, locale: Seq<char>) -> CatalogMap
    decreases files.len(),
{
    if files.len() == 0 {
        c
    } else {
        add_pairs(
            add_files(c, root, files.drop_last(), locale),
            spec_file_key(root, strings_view(files.last().path@)),
            locale,
            file_pairs(files.last()),
        )
    }
}

/// The catalog that the locale directories make, in order.
pub open spec fn spec_init_locale(dirs: Seq<LocaleDir>) -> CatalogMap
    decreases dirs.len(),
{
    if dirs.len() == 0 {
        Map::empty()
    } else {
        add_files(spec_init_locale(dirs.drop_last()), strings_view(dirs.last().path@), dirs.last().files@, dirs.last().name@)
    }
}

/// Every file lies under `root`.
pub open spec fn files_under(root: Seq<Seq<char>>, files: Seq<LocaleFile>) -> bool {
    forall|i: int| 0 <= i < files.len() ==> is_prefix_of(root, strings_view((#[trigger] files[i]).path@))
}

/// Every file of each directory lies under that directory.
pub open spec fn dirs_wf(dirs: Seq<LocaleDir>) -> bool {
    forall|i: int| 0 <= i < dirs.len() ==> files_under(strings_view((#[trigger] dirs[i]).path@), dirs[i].files@)
}

/// Records every translation of the files under `path` as a translation
/// into `locale`, keyed `"<file>:<key>"`; fails at the first file whose text
/// is not JSON, giving its position.
pub fn add_locale(path: &Vec<String>, locale: &String, files: &Vec<LocaleFile>, catalog: &mut Catalog) -> (res: Result<(), usize>)
    requires
        old(catalog).deep_wf(),
        files_under(strings_view(path@), files@),
    ensures
        final(catalog).deep_wf(),
        match res {
            Ok(()) => files_parse(files@) && final(catalog)@ == add_files(old(catalog)@, strings_view(path@), files@, locale@),
            Err(i) => i < files@.len() && !file_parses(files@[i as int])
                && forall|j: int| 0 <= j < i ==> file_parses(#[trigger] files@[j]),
        },
{
    let ghost root = strings_view(path@);
    let ghost c0 = catalog@;
    let mut i: usize = 0;
    while i < files.len()
        invariant
            i <= files@.len(),
            root == strings_view(path@),
            files_under(root, files@),
            catalog.deep_wf(),
            catalog@ == add_files(c0, root, files@.subrange(0, i as int), locale@),
            forall|j: int| 0 <= j < i ==> file_parses(#[trigger] files@[j]),
        decreases files.len() - i,
    {
        let f = &files[i];
        let file = file_key(path, &f.path);
        let pairs = match visit_json_kv(f.content.as_str()) {
            Some(p) => p,
            None => return Err(i),
        };
        let ghost pv = pairs_view(pairs@);
        let ghost c1 = catalog@;
        let mut j: usize = 0;
        while j < pairs.len()
            invariant
                j <= pairs@.len(),
                pv == pairs_view(pairs@),
                catalog.deep_wf(),
                catalog@ == add_pairs(c1, file@, locale@, pv.subrange(0, j as int)),
            decreases pairs.len() - j,
        {
            let mut key = file.clone();
            push_char(&mut key, ':');
            key.append(pairs[j].0.as_str());
            proof {
                assert(key@ =~= catalog_key(file@, pv[j as int].0));
                assert(pv.subrange(0, j + 1).drop_last() =~= pv.subrange(0, j as int));
                assert(pv.subrange(0, j + 1).last() == (pairs@[j as int].0@, pairs@[j as int].1@));
            }
            catalog.add_translation(key, locale.clone(), pairs[j].1.clone());
            j = j + 1;
        }
        proof {
            assert(pv.subrange(0, pairs@.len() as int) =~= pv);
            assert(files@.subrange(0, i + 1).drop_last() =~= files@.subrange(0, i as int));
            assert(files@.subrange(0, i + 1).last() == files@[i as int]);
        }
        i = i + 1;
    }
    proof {
        assert(files@.subrange(0, files@.len() as int) =~= files@);
    }
    Ok(())
}

/// The first file that is not JSON is file `i` of directory `d`.
pub open spec fn first_bad_file(dirs: Seq<LocaleDir>, d: int, i: int) -> bool {
    &&& 0 <= d < dirs.len()
    &&& 0 <= i < dirs[d].files@.len()
    &&& !file_parses(dirs[d].files@[i])
    &&& forall|e: int| 0 <= e < d ==> files_parse((#[trigger] dirs[e]).files@)
    &&& forall|j: int| 0 <= j < i ==> file_parses(#[trigger] dirs[d].files@[j])
}

/// Builds the catalog from the locale directories: each directory's files
/// are recorded as translations into the directory's locale. Fails at the
/// first file whose text is not JSON, giving its directory and position.
pub fn init_locale(dirs: &Vec<LocaleDir>) -> (res: Result<Catalog, (usize, usize)>)
    requires
        dirs_wf(dirs@),
    ensures
        match res {
            Ok(c) => dirs_parse(dirs@) && c.deep_wf() && c@ == spec_init_locale(dirs@),
            Err((d, i)) => first_bad_file(dirs@, d as int, i as int),
        },
{
    let mut catalog: Catalog = Table::new_catalog();
    let mut i: usize = 0;
    proof {
        assert(dirs@.subrange(0, 0) =~= Seq::<LocaleDir>::empty());
    }
    while i < dirs.len()
        invariant
            i <= dirs@.len(),
            dirs_wf(dirs@),
            catalog.deep_wf(),
            catalog@ == spec_init_locale(dirs@.subrange(0, i as int)),
            forall|e: int| 0 <= e < i ==> files_parse((#[trigger] dirs@[e]).files@),
        decreases dirs.len() - i,
    {
        let d = &dirs[i];
        proof {
            assert(files_under(strings_view(dirs@[i as int].path@), dirs@[i as int].files@));
        }
        match add_locale(&d.path, &d.name, &d.files, &mut catalog) {
            Ok(()) => {},
            Err(j) => return Err((i, j)),
        }
        proof {
            assert(dirs@.subrange(0, i + 1).drop_last() =~= dirs@.subrange(0, i as int));
            assert(dirs@.subrange(0, i + 1).last() == dirs@[i as int]);
        }
        i = i + 1;
    }
    proof {
        assert(dirs@.subrange(0, dirs@.len() as int) =~= dirs@);
    }
    Ok(catalog)
}

/// The catalog, loaded once: the catalog already loaded when there is one,
/// else the one the locale directories make (see `init_locale`).
pub fn get_locale(loaded: Option<Catalog>, dirs: &Vec<LocaleDir>) -> (res: Result<Catalog, (usize, usize)>)
    requires
        loaded matches Some(c) ==> c.deep_wf(),
        loaded is None ==> dirs_wf(dirs@),
    ensures
        match loaded {
            Some(c) => res == Ok::<Catalog, (usize, usize)>(c),
            None => match res {
                Ok(c) => dirs_parse(dirs@) && c.deep_wf() && c@ == spec_init_locale(dirs@),
                Err((d, i)) => first_bad_file(dirs@, d as int, i as int),
            },
        },
{
    match loaded {
        Some(c) => Ok(c),
        None => init_locale(dirs),
    }
}

/// `l` is a locale of some translation in `c`.
pub open spec fn has_locale(c: CatalogMap, l: Seq<char>) -> bool {
    exists|k: Seq<char>| c.dom().contains(k) && (#[trigger] c[k]).dom().contains(l)
}

/// Every locale that some translation of the catalog is in, each once, in
/// ascending order.
pub fn get_locale_list(catalog: &Catalog) -> (res: Vec<String>)
    requires
        catalog.deep_wf(),
    ensures
        sorted_strict(strings_view(res@)),
        forall|l: Seq<char>| strings_view(res@).contains(l) <==> has_locale(catalog@, l),
{
    let mut res: Vec<String> = Vec::new();
    proof {
        catalog.lemma_deep_wf();
        catalog.lemma_key_order();
    }
    let ghost ks = catalog.key_order();
    let mut i: usize = 0;
    while i < catalog.len()
        invariant
            catalog.deep_wf(),
            ks == catalog.key_order(),
            i <= ks.len(),
            forall|a: int| 0 <= a < ks.len() ==> (#[trigger] catalog.value_at_spec(a)).wf(),
            sorted_strict(strings_view(res@)),
            forall|l: Seq<char>| strings_view(res@).contains(l) <==>
                exists|a: int| 0 <= a < i && (#[trigger] catalog.value_at_spec(a))@.dom().contains(l),
        decreases ks.len() - i,
    {
        let t = catalog.value_at(i);
        proof {
            t.lemma_key_order();
        }
        let ghost tk = t.key_order();
        let mut j: usize = 0;
        while j < t.len()
            invariant
                t.wf(),
                tk == t.key_order(),
                *t == catalog.value_at_spec(i as int),
                i < ks.len(),
                j <= tk.len(),
                sorted_strict(strings_view(res@)),
                forall|l: Seq<char>| strings_view(res@).contains(l) <==>
                    ((exists|a: int| 0 <= a < i && (#[trigger] catalog.value_at_spec(a))@.dom().contains(l))
                    || exists|b: int| 0 <= b < j && tk[b] == l),
            decreases tk.len() - j,
        {
            insert_sorted(&mut res, t.key_at(j));
            proof {
                assert forall|l: Seq<char>| strings_view(res@).contains(l) <==>
                    ((exists|a: int| 0 <= a < i && (#[trigger] catalog.value_at_spec(a))@.dom().contains(l))
                    || exists|b: int| 0 <= b < j + 1 && tk[b] == l) by {
                    if l == tk[j as int] {
                    }
                    if exists|b: int| 0 <= b < j + 1 && tk[b] == l {
                        let b = choose|b: int| 0 <= b < j + 1 && tk[b] == l;
                        if b < j {
                        }
                    }
                }
            }
            j = j + 1;
        }
        proof {
            assert forall|l: Seq<char>| strings_view(res@).contains(l) <==>
                exists|a: int| 0 <= a < i + 1 && (#[trigger] catalog.value_at_spec(a))@.dom().contains(l) by {
                if exists|b: int| 0 <= b < j && tk[b] == l {
                    let b = choose|b: int| 0 <= b < j && tk[b] == l;
                    assert(tk.contains(l));
                    assert(catalog.value_at_spec(i as int)@.dom().contains(l));
                }
                if exists|a: int| 0 <= a < i + 1 && (#[trigger] catalog.value_at_spec(a))@.dom().contains(l) {
                    let a = choose|a: int| 0 <= a < i + 1 && (#[trigger] catalog.value_at_spec(a))@.dom().contains(l);
                    if a == i {
                        assert(tk.contains(l));
                        let b = choose|b: int| 0 <= b < tk.len() && tk[b] == l;
                        assert(0 <= b < j && tk[b] == l);
                    }
                }
            }
        }
        i = i + 1;
    }
    proof {
        assert forall|l: Seq<char>| strings_view(res@).contains(l) <==> has_locale(catalog@, l) by {
            if strings_view(res@).contains(l) {
                let a = choose|a: int| 0 <= a < ks.len() && (#[trigger] catalog.value_at_spec(a))@.dom().contains(l);
                assert(catalog@[ks[a]] == catalog.value_at_spec(a)@);
                assert(ks.contains(ks[a]));
                assert(catalog@.dom().contains(ks[a]));
            }
            if has_locale(catalog@, l) {
                let k = choose|k: Seq<char>| catalog@.dom().contains(k) && (#[trigger] catalog@[k]).dom().contains(l);
                assert(ks.contains(k));
                let a = choose|a: int| 0 <= a < ks.len() && ks[a] == k;
                assert(catalog@[ks[a]] == catalog.value_at_spec(a)@);
            }
        }
    }
    res
}

/// Recording a translation makes it readable, and changes no other
/// translation.
pub proof fn law_catalog_add_read_back(c: CatalogMap, key: Seq<char>, locale: Seq<char>, value: Seq<char>, k2: Seq<char>, l2: Seq<char>)
    ensures
        catalog_add(c, key, locale, value).dom().contains(key),
        catalog_add(c, key, locale, value)[key].dom().contains(locale),
        catalog_add(c, key, locale, value)[key][locale] == value,
        (k2 != key || l2 != locale) ==> (
            (catalog_add(c, key, locale, value).dom().contains(k2) && catalog_add(c, key, locale, value)[k2].dom().contains(l2))
            <==> (c.dom().contains(k2) && c[k2].dom().contains(l2))
        ),
        (k2 != key || l2 != locale) && c.dom().contains(k2) && c[k2].dom().contains(l2)
            ==> catalog_add(c, key, locale, value)[k2][l2] == c[k2][l2],
{
}

/// After a file's pairs are recorded, each pair's key holds a translation
/// into the locale, and it is the value of the last pair with that key.
pub proof fn law_add_pairs_last_wins(c: CatalogMap, file: Seq<char>, locale: Seq<char>, pairs: Seq<(Seq<char>, Seq<char>)>, i: int)
    requires
        0 <= i < pairs.len(),
        forall|j: int| i < j < pairs.len() ==> (#[trigger] pairs[j]).0 != pairs[i].0,
    ensures
        add_pairs(c, file, locale, pairs).dom().contains(catalog_key(file, pairs[i].0)),
        add_pairs(c, file, locale, pairs)[catalog_key(file, pairs[i].0)].dom().contains(locale),
        add_pairs(c, file, locale, pairs)[catalog_key(file, pairs[i].0)][locale] == pairs[i].1,
    decreases pairs.len(),
{
    let k = catalog_key(file, pairs[i].0);
    if i < pairs.len() - 1 {
        let p = pairs.drop_last();
        assert forall|j: int| i < j < p.len() implies (#[trigger] p[j]).0 != p[i].0 by {
            assert(p[j] == pairs[j]);
        }
        law_add_pairs_last_wins(c, file, locale, p, i);
        assert(p[i] == pairs[i]);
        let kl = catalog_key(file, pairs.last().0);
        assert(pairs.last().0 != pairs[i].0);
        assert(kl != k) by {
            assert(kl.len() == file.len() + 1 + pairs.last().0.len());
            if kl == k {
                assert(pairs.last().0 =~= kl.subrange(file.len() + 1int, kl.len() as int));
                assert(pairs[i].0 =~= k.subrange(file.len() + 1int, k.len() as int));
            }
        }
    }
}

} // verus!
