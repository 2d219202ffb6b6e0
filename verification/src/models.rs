//! Model registry: maps prototype names to glb files under the models folder
//! and keeps track of which of them are loaded.
//!
//! The folder's contents come in as a list of directories. A prototype name is
//! looked up by its own rules first (player, biters, trees, belts and the other
//! tiered families), then by folder name, where structures win over vehicles,
//! vehicles over resources and resources over foliage.

use crate::namemap::NameMap;
use crate::text::{
    ascii_lower, contains, ends_with, has_prefix, has_suffix, has_text, join2, lemma_filtered,
    lemma_lex_total, lemma_sort_names, lex_le, position, replace, replace_of, sort_names, sorted_names, starts_with, str_eq, strip_prefix, substring, to_chars, views,
};
use vstd::prelude::*;
use vstd::string::*;
use vstd::utf8::encode_utf8;

verus! {

/// How a part of an entity model rotates with the entity.
#[derive(Clone, Copy, PartialEq, Eq, Structural, Debug)]
pub enum YawSource {
    /// By the building direction.
    Direction,
    /// By the smooth orientation (turret heads).
    Orientation,
    /// Never (turret bases).
    Fixed,
    /// Continuously while working (radar dishes).
    Spin,
}

/// How an entity connects to its neighbours.
#[derive(Clone, Copy, PartialEq, Eq, Structural, Debug)]
pub enum ConnKind {
    /// Not at all.
    Plain,
    Belt,
    Under,
    Splitter,
    Pipe,
    PipeEnd,
    Heat,
    Wall,
    Gate,
}

/// One glb of an entity model.
#[derive(Debug)]
pub struct Part {
    pub key: String,
    pub yaw: YawSource,
}

/// What a `Part` holds.
pub ghost struct PartSpec {
    pub key: Seq<char>,
    pub yaw: YawSource,
}

impl View for Part {
    type V = PartSpec;

    open spec fn view(&self) -> PartSpec {
        PartSpec { key: self.key@, yaw: self.yaw }
    }
}

/// The model of an entity prototype: usually one part, turrets have two.
#[derive(Debug)]
pub struct EntityModel {
    pub parts: Vec<Part>,
    /// Footprint along the widest axis, in thousandths of a tile.
    pub tiles: u32,
    pub kind: ConnKind,
}

/// What an `EntityModel` holds.
pub ghost struct EntityModelSpec {
    pub parts: Seq<PartSpec>,
    pub tiles: u32,
    pub kind: ConnKind,
}

pub open spec fn part_views(v: Seq<Part>) -> Seq<PartSpec> {
    v.map_values(|p: Part| p@)
}

impl View for EntityModel {
    type V = EntityModelSpec;

    open spec fn view(&self) -> EntityModelSpec {
        EntityModelSpec { parts: part_views(self.parts@), tiles: self.tiles, kind: self.kind }
    }
}

pub open spec fn text_opt(s: Option<String>) -> Option<Seq<char>> {
    match s {
        Some(s) => Some(s@),
        None => None,
    }
}

pub open spec fn model_opt(m: Option<EntityModel>) -> Option<EntityModelSpec> {
    match m {
        Some(m) => Some(m@),
        None => None,
    }
}

/// A directory below the models folder, with the names of its entries.
#[derive(Debug)]
pub struct Folder {
    pub path: String,
    pub entries: Vec<String>,
}

/// What a `Folder` holds.
pub ghost struct FolderSpec {
    pub path: Seq<char>,
    pub entries: Seq<Seq<char>>,
}

impl View for Folder {
    type V = FolderSpec;

    open spec fn view(&self) -> FolderSpec {
        FolderSpec { path: self.path@, entries: views(self.entries@) }
    }
}

pub open spec fn tree_of(v: Seq<Folder>) -> Seq<FolderSpec> {
    v.map_values(|f: Folder| f@)
}

/// The directories below the models folder at some moment, and whether the file
/// system tells names apart by the case of their letters.
#[derive(Debug)]
pub struct Disk {
    pub folders: Vec<Folder>,
    pub ignores_case: bool,
}

/// What a `Disk` holds.
pub ghost struct DiskSpec {
    pub folders: Seq<FolderSpec>,
    pub ignores_case: bool,
}

impl View for Disk {
    type V = DiskSpec;

    open spec fn view(&self) -> DiskSpec {
        DiskSpec { folders: tree_of(self.folders@), ignores_case: self.ignores_case }
    }
}

impl Disk {
    /// A disk on which nothing is found, for questions that are not asked.
    pub fn empty() -> (r: Disk)
        ensures
            r@.folders.len() == 0,
            !r@.ignores_case,
    {
        Disk { folders: Vec::new(), ignores_case: false }
    }
}

/// Two paths name the same file.
pub open spec fn same_path(ignores_case: bool, a: Seq<char>, b: Seq<char>) -> bool {
    if ignores_case {
        a.len() == b.len() && forall|i: int|
            0 <= i < a.len() ==> ascii_lower(#[trigger] a[i]) == ascii_lower(b[i])
    } else {
        a == b
    }
}

/// Folder `f` holds an entry whose relative path is `rel`.
pub open spec fn holds_file(f: FolderSpec, ignores_case: bool, rel: Seq<char>) -> bool {
    exists|j: int|
        0 <= j < f.entries.len() && same_path(
            ignores_case,
            rel,
            f.path + "/"@ + (#[trigger] f.entries[j]),
        )
}

/// A file with the relative path `rel` exists.
pub open spec fn on_disk(d: DiskSpec, rel: Seq<char>) -> bool {
    exists|i: int|
        0 <= i < d.folders.len() && holds_file(#[trigger] d.folders[i], d.ignores_case, rel)
}

/// The entries of the directory `path`; none where there is no such directory.
pub open spec fn entries_of(folders: Seq<FolderSpec>, ignores_case: bool, path: Seq<char>) -> Seq<
    Seq<char>,
>
    decreases folders.len(),
{
    if folders.len() == 0 {
        Seq::empty()
    } else if same_path(ignores_case, folders[0].path, path) {
        folders[0].entries
    } else {
        entries_of(folders.drop_first(), ignores_case, path)
    }
}

/// Concatenates three strings.
fn join3(a: &str, b: &str, c: &str) -> (r: String)
    ensures
        r@ == a@ + b@ + c@,
{
    let mut r: String = join2(a, b);
    r.append(c);
    r
}

fn join4(a: &str, b: &str, c: &str, d: &str) -> (r: String)
    ensures
        r@ == a@ + b@ + c@ + d@,
{
    let mut r: String = join3(a, b, c);
    r.append(d);
    r
}

fn lower(c: char) -> (r: char)
    ensures
        r == ascii_lower(c),
{
    if 'A' <= c && c <= 'Z' {
        (c as u8 + 32) as char
    } else {
        c
    }
}

fn is_same_path(ignores_case: bool, a: &str, b: &str) -> (r: bool)
    ensures
        r == same_path(ignores_case, a@, b@),
{
    if !ignores_case {
        return str_eq(a, b);
    }
    let x: Vec<char> = to_chars(a);
    let y: Vec<char> = to_chars(b);
    if x.len() != y.len() {
        return false;
    }
    let mut i: usize = 0;
    while i < x.len()
        invariant
            i <= x.len(),
            x.len() == y.len(),
            x@ == a@,
            y@ == b@,
            forall|k: int| 0 <= k < i ==> ascii_lower(#[trigger] a@[k]) == ascii_lower(b@[k]),
        decreases x.len() - i,
    {
        if lower(x[i]) != lower(y[i]) {
            assert(ascii_lower(a@[i as int]) != ascii_lower(b@[i as int]));
            return false;
        }
        i = i + 1;
    }
    true
}

fn folder_holds(f: &Folder, ignores_case: bool, rel: &str) -> (r: bool)
    ensures
        r == holds_file(f@, ignores_case, rel@),
{
    let mut j: usize = 0;
    while j < f.entries.len()
        invariant
            j <= f.entries.len(),
            forall|k: int|
                0 <= k < j ==> !same_path(
                    ignores_case,
                    rel@,
                    f@.path + "/"@ + (#[trigger] f@.entries[k]),
                ),
        decreases f.entries.len() - j,
    {
        let p: String = join3(f.path.as_str(), "/", f.entries[j].as_str());
        assert(f@.entries[j as int] == f.entries@[j as int]@);
        if is_same_path(ignores_case, rel, p.as_str()) {
            return true;
        }
        j = j + 1;
    }
    false
}

/// Whether a file exists below the models folder.
pub fn file_exists(disk: &Disk, rel: &str) -> (r: bool)
    ensures
        r == on_disk(disk@, rel@),
{
    let mut i: usize = 0;
    while i < disk.folders.len()
        invariant
            i <= disk.folders.len(),
            forall|k: int|
                0 <= k < i ==> !holds_file(
                    #[trigger] disk@.folders[k],
                    disk.ignores_case,
                    rel@,
                ),
        decreases disk.folders.len() - i,
    {
        assert(disk@.folders[i as int] == disk.folders@[i as int]@);
        if folder_holds(&disk.folders[i], disk.ignores_case, rel) {
            return true;
        }
        i = i + 1;
    }
    false
}

/// A glb file name, whatever the case of its extension.
pub open spec fn is_glb(n: Seq<char>) -> bool {
    let k = n.len() as int;
    &&& k >= 4
    &&& n[k - 4] == '.'
    &&& (n[k - 3] == 'g' || n[k - 3] == 'G')
    &&& (n[k - 2] == 'l' || n[k - 2] == 'L')
    &&& (n[k - 1] == 'b' || n[k - 1] == 'B')
}

/// The glbs of a directory, sorted.
pub open spec fn glbs_of(entries: Seq<Seq<char>>) -> Seq<Seq<char>> {
    sort_names(entries.filter(|n: Seq<char>| is_glb(n)))
}

/// The glbs that make up a directory's model: `static.glb`, or every glb that
/// starts with `static` where there is no such file, then every glb that starts
/// with `animated`; the first glb where none of these is there.
pub open spec fn parts_of(entries: Seq<Seq<char>>) -> Seq<Seq<char>> {
    let glbs = glbs_of(entries);
    let housing = if glbs.contains("static.glb"@) {
        seq!["static.glb"@]
    } else {
        glbs.filter(|n: Seq<char>| has_prefix(n, "static"@))
    };
    let parts = housing + glbs.filter(|n: Seq<char>| has_prefix(n, "animated"@));
    if parts.len() == 0 && glbs.len() > 0 {
        seq![glbs[0]]
    } else {
        parts
    }
}

fn name_is_glb(name: &str) -> (r: bool)
    ensures
        r == is_glb(name@),
{
    let c: Vec<char> = to_chars(name);
    let k: usize = c.len();
    k >= 4 && c[k - 4] == '.' && (c[k - 3] == 'g' || c[k - 3] == 'G') && (c[k - 2] == 'l' || c[k
        - 2] == 'L') && (c[k - 1] == 'b' || c[k - 1] == 'B')
}

fn only_glbs(v: &Vec<String>) -> (r: Vec<String>)
    ensures
        views(r@) == views(v@).filter(|n: Seq<char>| is_glb(n)),
{
    let ghost keep = |n: Seq<char>| is_glb(n);
    let mut r: Vec<String> = Vec::new();
    let mut i: usize = 0;
    while i < v.len()
        invariant
            i <= v.len(),
            keep == (|n: Seq<char>| is_glb(n)),
            views(r@) == views(v@.take(i as int)).filter(keep),
        decreases v.len() - i,
    {
        let ghost before = r@;
        if name_is_glb(v[i].as_str()) {
            r.push(v[i].clone());
            assert(views(r@) =~= views(before).push(v@[i as int]@));
        }
        proof {
            reveal(Seq::filter);
            let w = views(v@.take(i + 1));
            assert(w.drop_last() =~= views(v@.take(i as int)));
            assert(w.last() == v@[i as int]@);
        }
        i = i + 1;
    }
    assert(v@.take(v@.len() as int) =~= v@);
    r
}

fn with_prefix(v: &Vec<String>, p: &str) -> (r: Vec<String>)
    ensures
        views(r@) == views(v@).filter(|n: Seq<char>| has_prefix(n, p@)),
{
    let ghost keep = |n: Seq<char>| has_prefix(n, p@);
    let mut r: Vec<String> = Vec::new();
    let mut i: usize = 0;
    while i < v.len()
        invariant
            i <= v.len(),
            keep == (|n: Seq<char>| has_prefix(n, p@)),
            views(r@) == views(v@.take(i as int)).filter(keep),
        decreases v.len() - i,
    {
        let ghost before = r@;
        if starts_with(v[i].as_str(), p) {
            r.push(v[i].clone());
            assert(views(r@) =~= views(before).push(v@[i as int]@));
        }
        proof {
            reveal(Seq::filter);
            let w = views(v@.take(i + 1));
            assert(w.drop_last() =~= views(v@.take(i as int)));
            assert(w.last() == v@[i as int]@);
        }
        i = i + 1;
    }
    assert(v@.take(v@.len() as int) =~= v@);
    r
}

/// Picks the glbs that make up the model of a directory.
pub fn pick_parts(entries: &Vec<String>) -> (r: Vec<String>)
    ensures
        views(r@) == parts_of(views(entries@)),
{
    let found: Vec<String> = only_glbs(entries);
    let glbs: Vec<String> = sorted_names(&found);
    let mut parts: Vec<String> = Vec::new();
    if position(&glbs, "static.glb").is_some() {
        parts.push("static.glb".to_owned());
        assert(views(parts@) =~= seq!["static.glb"@]);
    } else {
        parts = with_prefix(&glbs, "static");
    }
    let ghost housing = views(parts@);
    let mut animated: Vec<String> = with_prefix(&glbs, "animated");
    let ghost moving = views(animated@);
    let ghost p0 = parts@;
    let ghost a0 = animated@;
    parts.append(&mut animated);
    assert(views(parts@) =~= housing + moving);
    if parts.len() == 0 && glbs.len() > 0 {
        parts.push(glbs[0].clone());
        assert(views(parts@) =~= seq![views(glbs@)[0]]);
    }
    parts
}

/// The entries of a directory.
fn list_dir(disk: &Disk, path: &str) -> (r: Vec<String>)
    ensures
        views(r@) == entries_of(disk@.folders, disk.ignores_case, path@),
{
    let fold: bool = disk.ignores_case;
    let ghost all = disk@.folders;
    let mut i: usize = 0;
    assert(all.skip(0) =~= all);
    while i < disk.folders.len()
        invariant
            i <= disk.folders.len(),
            all == disk@.folders,
            fold == disk.ignores_case,
            entries_of(all, fold, path@) == entries_of(all.skip(i as int), fold, path@),
        decreases disk.folders.len() - i,
    {
        assert(all.skip(i as int)[0] == disk.folders@[i as int]@);
        assert(all.skip(i as int).drop_first() =~= all.skip(i + 1));
        if is_same_path(fold, disk.folders[i].path.as_str(), path) {
            return copy_names(&disk.folders[i].entries);
        }
        i = i + 1;
    }
    let r: Vec<String> = Vec::new();
    assert(views(r@) =~= Seq::<Seq<char>>::empty());
    r
}

fn copy_names(v: &Vec<String>) -> (r: Vec<String>)
    ensures
        views(r@) == views(v@),
{
    let mut r: Vec<String> = Vec::new();
    let mut i: usize = 0;
    while i < v.len()
        invariant
            i <= v.len(),
            views(r@) == views(v@).take(i as int),
        decreases v.len() - i,
    {
        let ghost before = r@;
        r.push(v[i].clone());
        assert(views(r@) =~= views(before).push(views(v@)[i as int]));
        assert(views(v@).take(i + 1) =~= views(v@).take(i as int).push(views(v@)[i as int]));
        i = i + 1;
    }
    assert(views(v@).take(v@.len() as int) =~= views(v@));
    r
}

/// Every name of `names` behind `stem`.
pub open spec fn under(stem: Seq<char>, names: Seq<Seq<char>>) -> Seq<Seq<char>> {
    names.map_values(|n: Seq<char>| stem + n)
}

fn put_under(stem: &str, names: &Vec<String>) -> (r: Vec<String>)
    ensures
        views(r@) == under(stem@, views(names@)),
{
    let mut r: Vec<String> = Vec::new();
    let mut i: usize = 0;
    while i < names.len()
        invariant
            i <= names.len(),
            views(r@) == under(stem@, views(names@)).take(i as int),
        decreases names.len() - i,
    {
        let ghost before = r@;
        r.push(join2(stem, names[i].as_str()));
        assert(views(r@) =~= views(before).push(stem@ + views(names@)[i as int]));
        assert(under(stem@, views(names@)).take(i + 1) =~= under(stem@, views(names@)).take(
            i as int,
        ).push(stem@ + views(names@)[i as int]));
        i = i + 1;
    }
    assert(under(stem@, views(names@)).take(names@.len() as int) =~= under(stem@, views(names@)));
    r
}

/// `path` is the directory `name` directly below `cat`.
pub open spec fn names_child(path: Seq<char>, cat: Seq<char>, name: Seq<char>) -> bool {
    path == cat + "/"@ + name && name.len() > 0 && !name.contains('/')
}

/// The name of the directory `path` where it lies directly below `cat`.
fn child_name(path: &str, cat: &str) -> (r: Option<String>)
    ensures
        r matches Some(n) ==> names_child(path@, cat@, n@),
        r is None ==> forall|n: Seq<char>| !names_child(path@, cat@, n),
{
    let stem: String = join2(cat, "/");
    match strip_prefix(path, stem.as_str()) {
        Some(n) => {
            let c: Vec<char> = to_chars(n.as_str());
            let mut i: usize = 0;
            while i < c.len()
                invariant
                    i <= c.len(),
                    c@ == n@,
                    path@ == stem@ + n@,
                    stem@ == cat@ + "/"@,
                    forall|j: int| 0 <= j < i ==> c@[j] != '/',
                decreases c.len() - i,
            {
                if c[i] == '/' {
                    assert forall|m: Seq<char>| !names_child(path@, cat@, m) by {
                        if names_child(path@, cat@, m) {
                            assert(m =~= path@.skip(stem@.len() as int));
                            assert(n@ =~= path@.skip(stem@.len() as int));
                            assert(m[i as int] == '/');
                        }
                    }
                    return None;
                }
                i = i + 1;
            }
            if c.len() == 0 {
                assert forall|m: Seq<char>| !names_child(path@, cat@, m) by {
                    if names_child(path@, cat@, m) {
                        assert(path@.len() == stem@.len() + m.len());
                    }
                }
                return None;
            }
            Some(n)
        },
        None => {
            assert forall|m: Seq<char>| !names_child(path@, cat@, m) by {
                if names_child(path@, cat@, m) {
                    assert(path@.subrange(0, stem@.len() as int) =~= stem@);
                }
            }
            None
        },
    }
}

/// Model folders by name.
pub type Names = Map<Seq<char>, Seq<Seq<char>>>;

/// What the directory `f` adds to the models found so far: a directory directly
/// below `cat` whose name is free and which holds a model takes its name.
pub open spec fn add_folder(m: Names, cat: Seq<char>, f: FolderSpec) -> Names {
    if exists|n: Seq<char>| names_child(f.path, cat, n) {
        let name = choose|n: Seq<char>| names_child(f.path, cat, n);
        if m.contains_key(name) || parts_of(f.entries).len() == 0 {
            m
        } else {
            m.insert(name, under(cat + "/"@ + name + "/"@, parts_of(f.entries)))
        }
    } else {
        m
    }
}

/// What the directories of `tree` below `cat` add, in their order.
pub open spec fn add_category(m: Names, cat: Seq<char>, tree: Seq<FolderSpec>) -> Names
    decreases tree.len(),
{
    if tree.len() == 0 {
        m
    } else {
        add_folder(add_category(m, cat, tree.drop_last()), cat, tree.last())
    }
}

/// The model folders of the tree: structures first, then vehicles, resources
/// and foliage, which only fill gaps.
pub open spec fn model_folders(tree: Seq<FolderSpec>) -> Names {
    let a = add_category(Map::empty(), "ENTITIES/STRUCTURES"@, tree);
    let b = add_category(a, "ENTITIES/VEHICLES"@, tree);
    let c = add_category(b, "ENTITIES/RESOURCES"@, tree);
    add_category(c, "ENTITIES/FOLIAGE"@, tree)
}

/// Item models by item name.
pub type Items = Map<Seq<char>, Seq<char>>;

/// What the directory `f` adds to the item models: its first part.
pub open spec fn add_item(m: Items, f: FolderSpec) -> Items {
    if exists|n: Seq<char>| names_child(f.path, "ENTITIES/ITEMS"@, n) {
        let name = choose|n: Seq<char>| names_child(f.path, "ENTITIES/ITEMS"@, n);
        if parts_of(f.entries).len() == 0 {
            m
        } else {
            m.insert(name, "ENTITIES/ITEMS"@ + "/"@ + name + "/"@ + parts_of(f.entries)[0])
        }
    } else {
        m
    }
}

/// The item models of the tree.
pub open spec fn item_models(tree: Seq<FolderSpec>) -> Items
    decreases tree.len(),
{
    if tree.len() == 0 {
        Map::empty()
    } else {
        add_item(item_models(tree.drop_last()), tree.last())
    }
}

proof fn lemma_child_unique(path: Seq<char>, cat: Seq<char>, a: Seq<char>, b: Seq<char>)
    requires
        names_child(path, cat, a),
        names_child(path, cat, b),
    ensures
        a == b,
{
    let k = (cat + "/"@).len() as int;
    assert(a =~= path.skip(k));
    assert(b =~= path.skip(k));
}

/// The contents of the executable map of model folders.
pub open spec fn names_of(m: Map<Seq<char>, Vec<String>>) -> Names {
    m.map_values(|v: Vec<String>| views(v@))
}

pub open spec fn items_of(m: Map<Seq<char>, String>) -> Items {
    m.map_values(|v: String| v@)
}

fn scan_category(m: &mut NameMap<Vec<String>>, cat: &str, tree: &Vec<Folder>)
    requires
        old(m).wf(),
    ensures
        final(m).wf(),
        names_of(final(m)@) == add_category(names_of(old(m)@), cat@, tree_of(tree@)),
{
    let ghost start = names_of(m@);
    let mut i: usize = 0;
    while i < tree.len()
        invariant
            i <= tree.len(),
            m.wf(),
            names_of(m@) == add_category(start, cat@, tree_of(tree@.take(i as int))),
        decreases tree.len() - i,
    {
        proof {
            let w = tree_of(tree@.take(i + 1));
            assert(w.drop_last() =~= tree_of(tree@.take(i as int)));
            assert(w.last() == tree@[i as int]@);
        }
        match child_name(tree[i].path.as_str(), cat) {
            Some(name) => {
                proof {
                    let f = tree@[i as int]@;
                    assert(names_child(f.path, cat@, name@));
                    lemma_child_unique(
                        f.path,
                        cat@,
                        name@,
                        choose|n: Seq<char>| names_child(f.path, cat@, n),
                    );
                }
                if !m.contains(name.as_str()) {
                    let parts: Vec<String> = pick_parts(&tree[i].entries);
                    if parts.len() > 0 {
                        let mut stem: String = join3(cat, "/", name.as_str());
                        stem.append("/");
                        let rels: Vec<String> = put_under(stem.as_str(), &parts);
                        let ghost before = m@;
                        m.insert(name, rels);
                        assert(names_of(m@) =~= names_of(before).insert(name@, views(rels@)));
                    }
                }
            },
            None => {},
        }
        i = i + 1;
    }
    assert(tree@.take(tree@.len() as int) =~= tree@);
}

fn scan_items(tree: &Vec<Folder>) -> (m: NameMap<String>)
    ensures
        m.wf(),
        items_of(m@) == item_models(tree_of(tree@)),
{
    let mut m: NameMap<String> = NameMap::new();
    assert(items_of(m@) =~= Map::<Seq<char>, Seq<char>>::empty());
    let mut i: usize = 0;
    while i < tree.len()
        invariant
            i <= tree.len(),
            m.wf(),
            items_of(m@) == item_models(tree_of(tree@.take(i as int))),
        decreases tree.len() - i,
    {
        proof {
            let w = tree_of(tree@.take(i + 1));
            assert(w.drop_last() =~= tree_of(tree@.take(i as int)));
            assert(w.last() == tree@[i as int]@);
        }
        match child_name(tree[i].path.as_str(), "ENTITIES/ITEMS") {
            Some(name) => {
                proof {
                    let f = tree@[i as int]@;
                    assert(names_child(f.path, "ENTITIES/ITEMS"@, name@));
                    lemma_child_unique(
                        f.path,
                        "ENTITIES/ITEMS"@,
                        name@,
                        choose|n: Seq<char>| names_child(f.path, "ENTITIES/ITEMS"@, n),
                    );
                }
                let parts: Vec<String> = pick_parts(&tree[i].entries);
                if parts.len() > 0 {
                    let mut rel: String = join4("ENTITIES/ITEMS", "/", name.as_str(), "/");
                    rel.append(parts[0].as_str());
                    assert(views(parts@)[0] == parts@[0]@);
                    let ghost before = m@;
                    m.insert(name, rel);
                    assert(items_of(m@) =~= items_of(before).insert(name@, rel@));
                }
            },
            None => {},
        }
        i = i + 1;
    }
    assert(tree@.take(tree@.len() as int) =~= tree@);
    m
}

/// Prototypes whose footprint is three tiles wide.
pub open spec fn three_tiles(n: Seq<char>) -> bool {
    ||| n == "assembling-machine-1"@
    ||| n == "assembling-machine-2"@
    ||| n == "assembling-machine-3"@
    ||| n == "chemical-plant"@
    ||| n == "centrifuge"@
    ||| n == "lab"@
    ||| n == "electric-furnace"@
    ||| n == "radar"@
    ||| n == "electric-mining-drill"@
    ||| n == "pumpjack"@
    ||| n == "beacon"@
    ||| n == "solar-panel"@
    ||| n == "storage-tank"@
    ||| n == "boiler"@
    ||| n == "heat-exchanger"@
}

/// Prototypes whose footprint is five tiles wide.
pub open spec fn five_tiles(n: Seq<char>) -> bool {
    ||| n == "oil-refinery"@
    ||| n == "nuclear-reactor"@
    ||| n == "steam-engine"@
    ||| n == "steam-turbine"@
}

/// Prototypes whose footprint is four tiles wide.
pub open spec fn four_tiles(n: Seq<char>) -> bool {
    ||| n == "tank"@
    ||| n == "rocket-silo-rocket"@
    ||| n == "roboport"@
}

/// Prototypes whose footprint is two tiles wide.
pub open spec fn two_tiles(n: Seq<char>) -> bool {
    ||| n == "car"@
    ||| n == "stone-furnace"@
    ||| n == "steel-furnace"@
    ||| n == "gun-turret"@
    ||| n == "burner-mining-drill"@
    ||| n == "accumulator"@
    ||| n == "substation"@
    ||| n == "big-electric-pole"@
    ||| n == "train-stop"@
    ||| n == "decider-combinator"@
    ||| n == "arithmetic-combinator"@
    ||| n == "pump"@
    ||| n == "offshore-pump"@
}

/// Prototypes whose footprint is six tiles wide.
pub open spec fn six_tiles(n: Seq<char>) -> bool {
    ||| n == "locomotive"@
    ||| n == "cargo-wagon"@
    ||| n == "fluid-wagon"@
}

/// The footprint of a prototype along its widest axis, in thousandths of a tile.
pub open spec fn footprint_of(n: Seq<char>) -> u32 {
    if three_tiles(n) {
        3000
    } else if five_tiles(n) {
        5000
    } else if four_tiles(n) {
        4000
    } else if two_tiles(n) {
        2000
    } else if n == "rocket-silo"@ {
        9000
    } else if six_tiles(n) {
        6000
    } else {
        1000
    }
}

/// The footprint of a prototype, in thousandths of a tile.
pub fn footprint(name: &str) -> (r: u32)
    ensures
        r == footprint_of(name@),
{
    if str_eq(name, "assembling-machine-1") || str_eq(name, "assembling-machine-2") || str_eq(name, "assembling-machine-3") || str_eq(name, "chemical-plant") || str_eq(name, "centrifuge") || str_eq(name, "lab") || str_eq(name, "electric-furnace") || str_eq(name, "radar") || str_eq(name, "electric-mining-drill") || str_eq(name, "pumpjack") || str_eq(name, "beacon") || str_eq(name, "solar-panel") || str_eq(name, "storage-tank") || str_eq(name, "boiler") || str_eq(name, "heat-exchanger") {
        3000
    } else if str_eq(name, "oil-refinery") || str_eq(name, "nuclear-reactor") || str_eq(name, "steam-engine") || str_eq(name, "steam-turbine") {
        5000
    } else if str_eq(name, "tank") || str_eq(name, "rocket-silo-rocket") || str_eq(name, "roboport") {
        4000
    } else if str_eq(name, "car") || str_eq(name, "stone-furnace") || str_eq(name, "steel-furnace") || str_eq(name, "gun-turret") || str_eq(name, "burner-mining-drill") || str_eq(name, "accumulator") || str_eq(name, "substation") || str_eq(name, "big-electric-pole") || str_eq(name, "train-stop") || str_eq(name, "decider-combinator") || str_eq(name, "arithmetic-combinator") || str_eq(name, "pump") || str_eq(name, "offshore-pump") {
        2000
    } else if str_eq(name, "rocket-silo") {
        9000
    } else if str_eq(name, "locomotive") || str_eq(name, "cargo-wagon") || str_eq(name, "fluid-wagon") {
        6000
    } else {
        1000
    }
}

/// The folder that stands for a prototype of another name.
pub open spec fn alias_of(n: Seq<char>) -> Option<Seq<char>> {
    if n == "coal"@ {
        Some("coal-ore"@)
    } else if n == "rocket-silo-rocket"@ {
        Some("rocket"@)
    } else {
        None
    }
}

pub open spec fn str_opt(s: Option<&str>) -> Option<Seq<char>> {
    match s {
        Some(t) => Some(t@),
        None => None,
    }
}

/// The folder that stands for a prototype of another name.
pub fn alias(name: &str) -> (r: Option<&'static str>)
    ensures
        str_opt(r) == alias_of(name@),
{
    if str_eq(name, "coal") {
        Some("coal-ore")
    } else if str_eq(name, "rocket-silo-rocket") {
        Some("rocket")
    } else {
        None
    }
}

/// The tier of a belt-family prototype: `fast-transport-belt` is `fast`.
pub open spec fn belt_tier_of(n: Seq<char>, suffix: Seq<char>) -> Option<Seq<char>> {
    if n == "fast-"@ + suffix {
        Some("fast"@)
    } else if n == "express-"@ + suffix {
        Some("express"@)
    } else if n == "turbo-"@ + suffix {
        Some("turbo"@)
    } else {
        None
    }
}

/// The tier of a belt-family prototype.
pub fn belt_tier(name: &str, suffix: &str) -> (r: Option<&'static str>)
    ensures
        str_opt(r) == belt_tier_of(name@, suffix@),
{
    let fast: String = join2("fast-", suffix);
    let express: String = join2("express-", suffix);
    let turbo: String = join2("turbo-", suffix);
    if str_eq(name, fast.as_str()) {
        Some("fast")
    } else if str_eq(name, express.as_str()) {
        Some("express")
    } else if str_eq(name, turbo.as_str()) {
        Some("turbo")
    } else {
        None
    }
}

/// The subfolder of an inserter: the plain inserter has none.
pub open spec fn inserter_tier_of(n: Seq<char>) -> Option<Option<Seq<char>>> {
    if n == "inserter"@ {
        Some(None)
    } else if n == "burner-inserter"@ {
        Some(Some("burner"@))
    } else if n == "long-handed-inserter"@ {
        Some(Some("long-handed"@))
    } else if n == "fast-inserter"@ {
        Some(Some("fast"@))
    } else if n == "bulk-inserter"@ {
        Some(Some("bulk"@))
    } else if n == "stack-inserter"@ {
        Some(Some("stack"@))
    } else {
        None
    }
}

/// The subfolder of an inserter; nothing for what is no known inserter.
pub fn inserter_tier(name: &str) -> (r: Option<Option<&'static str>>)
    ensures
        r is Some <==> inserter_tier_of(name@) is Some,
        r matches Some(t) ==> inserter_tier_of(name@) == Some(str_opt(t)),
{
    if str_eq(name, "inserter") {
        Some(None)
    } else if str_eq(name, "burner-inserter") {
        Some(Some("burner"))
    } else if str_eq(name, "long-handed-inserter") {
        Some(Some("long-handed"))
    } else if str_eq(name, "fast-inserter") {
        Some(Some("fast"))
    } else if str_eq(name, "bulk-inserter") {
        Some(Some("bulk"))
    } else if str_eq(name, "stack-inserter") {
        Some(Some("stack"))
    } else {
        None
    }
}

/// The subfolder of a logistic chest, under its older and its newer name.
pub open spec fn chest_tier_of(n: Seq<char>) -> Option<Seq<char>> {
    if n == "logistic-chest-active-provider"@ || n == "active-provider-chest"@ {
        Some("active-provider"@)
    } else if n == "logistic-chest-passive-provider"@ || n == "passive-provider-chest"@ {
        Some("passive-provider"@)
    } else if n == "logistic-chest-storage"@ || n == "storage-chest"@ {
        Some("storage"@)
    } else if n == "logistic-chest-buffer"@ || n == "buffer-chest"@ {
        Some("buffer"@)
    } else if n == "logistic-chest-requester"@ || n == "requester-chest"@ {
        Some("requester"@)
    } else {
        None
    }
}

/// The subfolder of a logistic chest.
pub fn chest_tier(name: &str) -> (r: Option<&'static str>)
    ensures
        str_opt(r) == chest_tier_of(name@),
{
    if str_eq(name, "logistic-chest-active-provider") || str_eq(name, "active-provider-chest") {
        Some("active-provider")
    } else if str_eq(name, "logistic-chest-passive-provider") || str_eq(
        name,
        "passive-provider-chest",
    ) {
        Some("passive-provider")
    } else if str_eq(name, "logistic-chest-storage") || str_eq(name, "storage-chest") {
        Some("storage")
    } else if str_eq(name, "logistic-chest-buffer") || str_eq(name, "buffer-chest") {
        Some("buffer")
    } else if str_eq(name, "logistic-chest-requester") || str_eq(name, "requester-chest") {
        Some("requester")
    } else {
        None
    }
}

/// The glb of a biter and its footprint in thousandths of a tile.
pub open spec fn biter_model_of(n: Seq<char>) -> Option<(Seq<char>, u32)> {
    if !has_text(n, "biter"@) {
        None
    } else if has_text(n, "behemoth"@) {
        Some(("ENTITIES/ENEMIES/biters/biter_tier4.glb"@, 3600))
    } else if has_text(n, "big"@) {
        Some(("ENTITIES/ENEMIES/biters/biter_tier3.glb"@, 2760))
    } else if has_text(n, "medium"@) {
        Some(("ENTITIES/ENEMIES/biters/biter_tier2.glb"@, 2208))
    } else {
        Some(("ENTITIES/ENEMIES/biters/biter_tier1.glb"@, 1656))
    }
}

/// The glb of a biter and its footprint; units that are no biters have none.
pub fn biter_model(name: &str) -> (r: Option<(&'static str, u32)>)
    ensures
        r is Some <==> biter_model_of(name@) is Some,
        r matches Some(m) ==> biter_model_of(name@) == Some((m.0@, m.1)),
{
    if !contains(name, "biter") {
        None
    } else if contains(name, "behemoth") {
        Some(("ENTITIES/ENEMIES/biters/biter_tier4.glb", 3600))
    } else if contains(name, "big") {
        Some(("ENTITIES/ENEMIES/biters/biter_tier3.glb", 2760))
    } else if contains(name, "medium") {
        Some(("ENTITIES/ENEMIES/biters/biter_tier2.glb", 2208))
    } else {
        Some(("ENTITIES/ENEMIES/biters/biter_tier1.glb", 1656))
    }
}

/// The tier copy of a structure's glb where it is on disk, else the base glb.
pub open spec fn tier_file_of(
    d: DiskSpec,
    folder: Seq<char>,
    sub: Option<Seq<char>>,
    file: Seq<char>,
) -> Seq<char> {
    let stem = "ENTITIES/STRUCTURES/"@ + folder + "/"@;
    match sub {
        Some(t) => if on_disk(d, stem + t + "/"@ + file) {
            stem + t + "/"@ + file
        } else {
            stem + file
        },
        None => stem + file,
    }
}

/// The tier copy of a structure's glb where it is on disk, else the base glb.
pub fn tier_file(disk: &Disk, folder: &str, sub: Option<&str>, file: &str) -> (r: String)
    ensures
        r@ == tier_file_of(disk@, folder@, str_opt(sub), file@),
{
    let stem: String = join3("ENTITIES/STRUCTURES/", folder, "/");
    match sub {
        Some(t) => {
            let rel: String = join4(stem.as_str(), t, "/", file);
            if file_exists(disk, rel.as_str()) {
                return rel;
            }
        },
        None => {},
    }
    join2(stem.as_str(), file)
}

/// The hash that spreads tree prototypes over the tree models: base 31 over the
/// bytes of the name, modulo 2^32.
pub open spec fn tree_hash(b: Seq<u8>) -> nat
    decreases b.len(),
{
    if b.len() == 0 {
        0
    } else {
        (tree_hash(b.drop_last()) * 31 + b.last() as nat) % 0x1_0000_0000
    }
}

fn hash_name(name: &str) -> (r: u32)
    ensures
        r == tree_hash(encode_utf8(name@)),
{
    let b: &[u8] = name.as_bytes();
    let mut h: u32 = 0;
    let mut i: usize = 0;
    while i < b.len()
        invariant
            i <= b@.len(),
            h == tree_hash(b@.take(i as int)),
        decreases b@.len() - i,
    {
        let ghost h0 = h as int;
        let m: u64 = (h as u64) * 31 + (b[i] as u64);
        h = (m % 0x1_0000_0000) as u32;
        assert(b@.take(i + 1).drop_last() =~= b@.take(i as int));
        i = i + 1;
    }
    assert(b@.take(b@.len() as int) =~= b@);
    h
}

/// The tree model of a tree prototype.
pub open spec fn tree_model_of(n: Seq<char>) -> Seq<char> {
    let k = 1 + tree_hash(encode_utf8(n)) % 5;
    if k == 1 {
        "ENTITIES/FOLIAGE/tree1/static.glb"@
    } else if k == 2 {
        "ENTITIES/FOLIAGE/tree2/static.glb"@
    } else if k == 3 {
        "ENTITIES/FOLIAGE/tree3/static.glb"@
    } else if k == 4 {
        "ENTITIES/FOLIAGE/tree4/static.glb"@
    } else {
        "ENTITIES/FOLIAGE/tree5/static.glb"@
    }
}

fn tree_model(name: &str) -> (r: &'static str)
    ensures
        r@ == tree_model_of(name@),
{
    let k: u32 = 1 + hash_name(name) % 5;
    if k == 1 {
        "ENTITIES/FOLIAGE/tree1/static.glb"
    } else if k == 2 {
        "ENTITIES/FOLIAGE/tree2/static.glb"
    } else if k == 3 {
        "ENTITIES/FOLIAGE/tree3/static.glb"
    } else if k == 4 {
        "ENTITIES/FOLIAGE/tree4/static.glb"
    } else {
        "ENTITIES/FOLIAGE/tree5/static.glb"
    }
}

/// A name without its trailing tier number: `assembling-machine-3` is
/// `assembling-machine`.
pub open spec fn strip_tier_of(n: Seq<char>) -> Option<Seq<char>>
    decreases n.len(),
{
    if n.len() == 0 {
        None
    } else if n.last() == '-' {
        Some(n.drop_last())
    } else if '0' <= n.last() <= '9' {
        strip_tier_of(n.drop_last())
    } else {
        None
    }
}

fn strip_tier(name: &str) -> (r: Option<String>)
    ensures
        r is Some <==> strip_tier_of(name@) is Some,
        r matches Some(t) ==> strip_tier_of(name@) == Some(t@),
{
    let c: Vec<char> = to_chars(name);
    let mut k: usize = c.len();
    assert(c@.take(k as int) =~= c@);
    while k > 0
        invariant
            k <= c.len(),
            c@ == name@,
            strip_tier_of(name@) == strip_tier_of(c@.take(k as int)),
        decreases k,
    {
        assert(c@.take(k as int).drop_last() =~= c@.take(k - 1));
        if c[k - 1] == '-' {
            assert(c@.take(k - 1) =~= name@.subrange(0, k - 1));
            return Some(substring(name, 0, k - 1));
        }
        if !('0' <= c[k - 1] && c[k - 1] <= '9') {
            return None;
        }
        k = k - 1;
    }
    None
}

/// The glb of each state of the player character.
pub open spec fn player_key_of(state: int) -> Seq<char> {
    if state == 0 {
        "ENTITIES/PLAYER/idle.glb"@
    } else if state == 1 {
        "ENTITIES/PLAYER/running.glb"@
    } else if state == 2 {
        "ENTITIES/PLAYER/shoot-run.glb"@
    } else if state == 3 {
        "ENTITIES/PLAYER/shoot-stand.glb"@
    } else {
        "ENTITIES/PLAYER/mining.glb"@
    }
}

/// The glb of a state of the player character; states beyond the last one show
/// the last one.
pub fn player_key(state: u8) -> (r: &'static str)
    ensures
        r@ == player_key_of(state as int),
{
    if state == 0 {
        "ENTITIES/PLAYER/idle.glb"
    } else if state == 1 {
        "ENTITIES/PLAYER/running.glb"
    } else if state == 2 {
        "ENTITIES/PLAYER/shoot-run.glb"
    } else if state == 3 {
        "ENTITIES/PLAYER/shoot-stand.glb"
    } else {
        "ENTITIES/PLAYER/mining.glb"
    }
}

/// The player character's glbs, in the order of their states.
pub open spec fn player_keys() -> Seq<Seq<char>> {
    Seq::new(5, |i: int| player_key_of(i))
}

/// Whether a key belongs to the player character.
pub fn is_player_key(key: &str) -> (r: bool)
    ensures
        r == has_prefix(key@, "ENTITIES/PLAYER/"@),
{
    starts_with(key, "ENTITIES/PLAYER/")
}

/// Whether a key belongs to the spidertron, whose legs are posed.
pub fn is_spider_key(key: &str) -> (r: bool)
    ensures
        r == has_prefix(key@, "ENTITIES/VEHICLES/spidertron"@),
{
    starts_with(key, "ENTITIES/VEHICLES/spidertron")
}

/// The corner model of a straight belt: the same file with `belt-L` for
/// `belt-I`, so that a tier keeps its colour on curves.
pub fn belt_corner_key(straight: &str) -> (r: String)
    ensures
        r@ == replace_of(straight@, "belt-I.glb"@, "belt-L.glb"@),
{
    proof {
        reveal_strlit("belt-I.glb");
    }
    replace(straight, "belt-I.glb", "belt-L.glb")
}

/// Parts that all rotate alike.
pub open spec fn parts_with(keys: Seq<Seq<char>>, yaw: YawSource) -> Seq<PartSpec> {
    keys.map_values(|k: Seq<char>| PartSpec { key: k, yaw })
}

/// A model of one part.
pub open spec fn model_of(key: Seq<char>, yaw: YawSource, kind: ConnKind, tiles: u32) -> EntityModelSpec {
    EntityModelSpec { parts: seq![PartSpec { key, yaw }], tiles, kind }
}

/// The model of prototypes that go by their name alone.
pub open spec fn named_model(n: Seq<char>) -> Option<EntityModelSpec> {
    if n == "character"@ {
        Some(model_of(player_key_of(0), YawSource::Direction, ConnKind::Plain, 1000))
    } else if n == "spidertron"@ || has_suffix(n, "-spidertron"@) {
        Some(
            model_of(
                "ENTITIES/VEHICLES/spidertron/static.glb"@,
                YawSource::Direction,
                ConnKind::Plain,
                5000,
            ),
        )
    } else if biter_model_of(n) is Some {
        let (rel, tiles) = biter_model_of(n)->0;
        Some(model_of(rel, YawSource::Orientation, ConnKind::Plain, tiles))
    } else if has_prefix(n, "dead-"@) || has_prefix(n, "dry-"@) {
        let rel = if has_text(n, "trunk"@) || has_text(n, "dead-tree"@) {
            "BLUEPRINTS/ground-system/ground-clutter/assets/branch1/static.glb"@
        } else {
            "BLUEPRINTS/ground-system/ground-clutter/assets/bush1/static.glb"@
        };
        Some(model_of(rel, YawSource::Direction, ConnKind::Plain, 1400))
    } else if has_text(n, "rock"@) && !has_text(n, "rocket"@) {
        let tiles: u32 = if has_text(n, "huge"@) {
            2600
        } else {
            2000
        };
        Some(
            model_of(
                "BLUEPRINTS/ground-system/ground-clutter/assets/rock1/static.glb"@,
                YawSource::Direction,
                ConnKind::Plain,
                tiles,
            ),
        )
    } else if has_prefix(n, "tree"@) {
        Some(model_of(tree_model_of(n), YawSource::Direction, ConnKind::Plain, 1500))
    } else {
        None
    }
}

/// `n` is `base` or a tier of it.
pub open spec fn in_family(n: Seq<char>, base: Seq<char>, dashed: Seq<char>) -> bool {
    n == base || has_suffix(n, dashed)
}

/// The directory of an assembler tier.
pub open spec fn assembler_dir(tier: Seq<char>) -> Seq<char> {
    if tier.len() == 0 {
        "ENTITIES/STRUCTURES/assembling-machine"@
    } else {
        "ENTITIES/STRUCTURES/assembling-machine/"@ + tier
    }
}

/// The model of an assembler tier that has a directory of its own.
pub open spec fn assembler_model(d: DiskSpec, n: Seq<char>) -> Option<EntityModelSpec> {
    if has_prefix(n, "assembling-machine-"@) {
        let tier = n.skip("assembling-machine-"@.len() as int);
        let parts = parts_of(entries_of(d.folders, d.ignores_case, assembler_dir(tier)));
        if parts.len() > 0 {
            Some(
                EntityModelSpec {
                    parts: parts_with(
                        under("ENTITIES/STRUCTURES/assembling-machine/"@ + tier + "/"@, parts),
                        YawSource::Direction,
                    ),
                    tiles: footprint_of(n),
                    kind: ConnKind::Plain,
                },
            )
        } else {
            None
        }
    } else {
        None
    }
}

/// The model of belts, inserters, chests and assemblers with their tiers.
pub open spec fn tiered_model(d: DiskSpec, n: Seq<char>) -> Option<EntityModelSpec> {
    if in_family(n, "transport-belt"@, "-transport-belt"@) {
        let sub = belt_tier_of(n, "transport-belt"@);
        let rel = tier_file_of(d, "belts"@, sub, "belt-I.glb"@);
        Some(model_of(rel, YawSource::Direction, ConnKind::Belt, 1000))
    } else if in_family(n, "underground-belt"@, "-underground-belt"@) {
        let sub = belt_tier_of(n, "underground-belt"@);
        let rel = tier_file_of(d, "underground-belt"@, sub, "static.glb"@);
        Some(model_of(rel, YawSource::Direction, ConnKind::Under, 1000))
    } else if in_family(n, "splitter"@, "-splitter"@) {
        let sub = belt_tier_of(n, "splitter"@);
        let rel = tier_file_of(d, "splitter"@, sub, "static.glb"@);
        Some(model_of(rel, YawSource::Direction, ConnKind::Splitter, 2000))
    } else if inserter_tier_of(n) is Some {
        let sub = inserter_tier_of(n)->0;
        Some(
            EntityModelSpec {
                parts: seq![
                    PartSpec {
                        key: tier_file_of(d, "inserter"@, sub, "static.glb"@),
                        yaw: YawSource::Direction,
                    },
                    PartSpec {
                        key: tier_file_of(d, "inserter"@, sub, "animated1.glb"@),
                        yaw: YawSource::Direction,
                    },
                ],
                tiles: 1000,
                kind: ConnKind::Plain,
            },
        )
    } else if chest_tier_of(n) is Some {
        let rel = tier_file_of(d, "logistic-chests"@, chest_tier_of(n), "static.glb"@);
        Some(model_of(rel, YawSource::Direction, ConnKind::Plain, 1000))
    } else {
        assembler_model(d, n)
    }
}

/// The model of pipes, and of the two structures whose parts rotate apart.
pub open spec fn jointed_model(d: DiskSpec, n: Seq<char>) -> Option<EntityModelSpec> {
    if n == "pipe"@ {
        Some(
            model_of(
                "ENTITIES/STRUCTURES/pipes/pipe-I.glb"@,
                YawSource::Direction,
                ConnKind::Pipe,
                1000,
            ),
        )
    } else if n == "pipe-to-ground"@ {
        Some(
            model_of(
                "ENTITIES/STRUCTURES/pipes/pipe-to-ground.glb"@,
                YawSource::Direction,
                ConnKind::PipeEnd,
                1000,
            ),
        )
    } else if n == "heat-pipe"@ {
        Some(
            model_of(
                "ENTITIES/STRUCTURES/heat-pipe/static.glb"@,
                YawSource::Direction,
                ConnKind::Heat,
                1000,
            ),
        )
    } else if n == "radar"@ && on_disk(d, "ENTITIES/STRUCTURES/radar/static1.glb"@) && on_disk(
        d,
        "ENTITIES/STRUCTURES/radar/static2.glb"@,
    ) {
        Some(
            EntityModelSpec {
                parts: seq![
                    PartSpec {
                        key: "ENTITIES/STRUCTURES/radar/static1.glb"@,
                        yaw: YawSource::Direction,
                    },
                    PartSpec {
                        key: "ENTITIES/STRUCTURES/radar/static2.glb"@,
                        yaw: YawSource::Spin,
                    },
                ],
                tiles: footprint_of(n),
                kind: ConnKind::Plain,
            },
        )
    } else if n == "gun-turret"@ && on_disk(d, "ENTITIES/STRUCTURES/gun-turret/static1.glb"@)
        && on_disk(d, "ENTITIES/STRUCTURES/gun-turret/static2.glb"@) {
        Some(
            EntityModelSpec {
                parts: seq![
                    PartSpec {
                        key: "ENTITIES/STRUCTURES/gun-turret/static1.glb"@,
                        yaw: YawSource::Fixed,
                    },
                    PartSpec {
                        key: "ENTITIES/STRUCTURES/gun-turret/static2.glb"@,
                        yaw: YawSource::Orientation,
                    },
                ],
                tiles: footprint_of(n),
                kind: ConnKind::Plain,
            },
        )
    } else {
        None
    }
}

/// The connection kind of a model that is found by its folder name.
pub open spec fn folder_kind(n: Seq<char>) -> ConnKind {
    if has_suffix(n, "-wall"@) {
        ConnKind::Wall
    } else if n == "gate"@ {
        ConnKind::Gate
    } else {
        ConnKind::Plain
    }
}

/// The glbs of the folder that stands for `n`: the folder of that name, of its
/// alias, or of its name without the tier number.
pub open spec fn folder_glbs(folders: Names, n: Seq<char>) -> Option<Seq<Seq<char>>> {
    if folders.contains_key(n) {
        Some(folders[n])
    } else if alias_of(n) is Some && folders.contains_key(alias_of(n)->0) {
        Some(folders[alias_of(n)->0])
    } else if strip_tier_of(n) is Some && folders.contains_key(strip_tier_of(n)->0) {
        Some(folders[strip_tier_of(n)->0])
    } else {
        None
    }
}

/// The model of a prototype that is found by its folder name.
pub open spec fn folder_model(folders: Names, n: Seq<char>) -> Option<EntityModelSpec> {
    match folder_glbs(folders, n) {
        Some(rels) => Some(
            EntityModelSpec {
                parts: parts_with(rels, YawSource::Direction),
                tiles: footprint_of(n),
                kind: folder_kind(n),
            },
        ),
        None => None,
    }
}

/// The model of a prototype, by the folders that were there at the start and by
/// what is on disk when it is asked for.
pub open spec fn resolve_of(index: Seq<FolderSpec>, d: DiskSpec, n: Seq<char>) -> Option<
    EntityModelSpec,
> {
    if named_model(n) is Some {
        named_model(n)
    } else if tiered_model(d, n) is Some {
        tiered_model(d, n)
    } else if jointed_model(d, n) is Some {
        jointed_model(d, n)
    } else {
        folder_model(model_folders(index), n)
    }
}

fn single(rel: &str, yaw: YawSource, kind: ConnKind, tiles: u32) -> (r: EntityModel)
    ensures
        r@ == model_of(rel@, yaw, kind, tiles),
{
    let mut parts: Vec<Part> = Vec::new();
    parts.push(Part { key: rel.to_owned(), yaw });
    let r = EntityModel { parts, tiles, kind };
    assert(r@.parts =~= seq![PartSpec { key: rel@, yaw }]);
    r
}

fn pair(
    first: String,
    first_yaw: YawSource,
    second: String,
    second_yaw: YawSource,
    tiles: u32,
) -> (r: EntityModel)
    ensures
        r@ == (EntityModelSpec {
            parts: seq![
                PartSpec { key: first@, yaw: first_yaw },
                PartSpec { key: second@, yaw: second_yaw },
            ],
            tiles,
            kind: ConnKind::Plain,
        }),
{
    let ghost a = first@;
    let ghost b = second@;
    let mut parts: Vec<Part> = Vec::new();
    parts.push(Part { key: first, yaw: first_yaw });
    parts.push(Part { key: second, yaw: second_yaw });
    let r = EntityModel { parts, tiles, kind: ConnKind::Plain };
    assert(r@.parts =~= seq![
        PartSpec { key: a, yaw: first_yaw },
        PartSpec { key: b, yaw: second_yaw },
    ]);
    r
}

fn make_parts(rels: &Vec<String>, yaw: YawSource) -> (r: Vec<Part>)
    ensures
        part_views(r@) == parts_with(views(rels@), yaw),
{
    let mut r: Vec<Part> = Vec::new();
    let mut i: usize = 0;
    while i < rels.len()
        invariant
            i <= rels.len(),
            part_views(r@) == parts_with(views(rels@), yaw).take(i as int),
        decreases rels.len() - i,
    {
        let ghost before = r@;
        let ghost all = parts_with(views(rels@), yaw);
        r.push(Part { key: rels[i].clone(), yaw });
        assert(part_views(r@) =~= part_views(before).push(all[i as int]));
        assert(all.take(i + 1) =~= all.take(i as int).push(all[i as int]));
        i = i + 1;
    }
    assert(parts_with(views(rels@), yaw).take(rels@.len() as int) =~= parts_with(views(rels@), yaw));
    r
}

fn resolve_named(name: &str) -> (r: Option<EntityModel>)
    ensures
        model_opt(r) == named_model(name@),
{
    if str_eq(name, "character") {
        return Some(single(player_key(0), YawSource::Direction, ConnKind::Plain, 1000));
    }
    if str_eq(name, "spidertron") || ends_with(name, "-spidertron") {
        return Some(
            single(
                "ENTITIES/VEHICLES/spidertron/static.glb",
                YawSource::Direction,
                ConnKind::Plain,
                5000,
            ),
        );
    }
    match biter_model(name) {
        Some((rel, tiles)) => {
            return Some(single(rel, YawSource::Orientation, ConnKind::Plain, tiles));
        },
        None => {},
    }
    if starts_with(name, "dead-") || starts_with(name, "dry-") {
        let rel: &str = if contains(name, "trunk") || contains(name, "dead-tree") {
            "BLUEPRINTS/ground-system/ground-clutter/assets/branch1/static.glb"
        } else {
            "BLUEPRINTS/ground-system/ground-clutter/assets/bush1/static.glb"
        };
        return Some(single(rel, YawSource::Direction, ConnKind::Plain, 1400));
    }
    if contains(name, "rock") && !contains(name, "rocket") {
        let tiles: u32 = if contains(name, "huge") {
            2600
        } else {
            2000
        };
        return Some(
            single(
                "BLUEPRINTS/ground-system/ground-clutter/assets/rock1/static.glb",
                YawSource::Direction,
                ConnKind::Plain,
                tiles,
            ),
        );
    }
    if starts_with(name, "tree") {
        return Some(single(tree_model(name), YawSource::Direction, ConnKind::Plain, 1500));
    }
    None
}

fn resolve_assembler(disk: &Disk, name: &str) -> (r: Option<EntityModel>)
    ensures
        model_opt(r) == assembler_model(disk@, name@),
{
    match strip_prefix(name, "assembling-machine-") {
        Some(tier) => {
            assert(tier@ =~= name@.skip("assembling-machine-"@.len() as int));
            let dir: String = if tier.as_str().unicode_len() == 0 {
                "ENTITIES/STRUCTURES/assembling-machine".to_owned()
            } else {
                join2("ENTITIES/STRUCTURES/assembling-machine/", tier.as_str())
            };
            let entries: Vec<String> = list_dir(disk, dir.as_str());
            let parts: Vec<String> = pick_parts(&entries);
            if parts.len() > 0 {
                let stem: String = join3(
                    "ENTITIES/STRUCTURES/assembling-machine/",
                    tier.as_str(),
                    "/",
                );
                let rels: Vec<String> = put_under(stem.as_str(), &parts);
                return Some(
                    EntityModel {
                        parts: make_parts(&rels, YawSource::Direction),
                        tiles: footprint(name),
                        kind: ConnKind::Plain,
                    },
                );
            }
            None
        },
        None => None,
    }
}

fn resolve_tiered(disk: &Disk, name: &str) -> (r: Option<EntityModel>)
    ensures
        model_opt(r) == tiered_model(disk@, name@),
{
    if str_eq(name, "transport-belt") || ends_with(name, "-transport-belt") {
        let rel: String = tier_file(disk, "belts", belt_tier(name, "transport-belt"), "belt-I.glb");
        return Some(single(rel.as_str(), YawSource::Direction, ConnKind::Belt, 1000));
    }
    if str_eq(name, "underground-belt") || ends_with(name, "-underground-belt") {
        let sub: Option<&str> = belt_tier(name, "underground-belt");
        let rel: String = tier_file(disk, "underground-belt", sub, "static.glb");
        return Some(single(rel.as_str(), YawSource::Direction, ConnKind::Under, 1000));
    }
    if str_eq(name, "splitter") || ends_with(name, "-splitter") {
        let sub: Option<&str> = belt_tier(name, "splitter");
        let rel: String = tier_file(disk, "splitter", sub, "static.glb");
        return Some(single(rel.as_str(), YawSource::Direction, ConnKind::Splitter, 2000));
    }
    match inserter_tier(name) {
        Some(sub) => {
            let base: String = tier_file(disk, "inserter", sub, "static.glb");
            let arm: String = tier_file(disk, "inserter", sub, "animated1.glb");
            return Some(pair(base, YawSource::Direction, arm, YawSource::Direction, 1000));
        },
        None => {},
    }
    match chest_tier(name) {
        Some(sub) => {
            let rel: String = tier_file(disk, "logistic-chests", Some(sub), "static.glb");
            return Some(single(rel.as_str(), YawSource::Direction, ConnKind::Plain, 1000));
        },
        None => {},
    }
    resolve_assembler(disk, name)
}

fn resolve_jointed(disk: &Disk, name: &str) -> (r: Option<EntityModel>)
    ensures
        model_opt(r) == jointed_model(disk@, name@),
{
    if str_eq(name, "pipe") {
        return Some(
            single(
                "ENTITIES/STRUCTURES/pipes/pipe-I.glb",
                YawSource::Direction,
                ConnKind::Pipe,
                1000,
            ),
        );
    }
    if str_eq(name, "pipe-to-ground") {
        return Some(
            single(
                "ENTITIES/STRUCTURES/pipes/pipe-to-ground.glb",
                YawSource::Direction,
                ConnKind::PipeEnd,
                1000,
            ),
        );
    }
    if str_eq(name, "heat-pipe") {
        return Some(
            single(
                "ENTITIES/STRUCTURES/heat-pipe/static.glb",
                YawSource::Direction,
                ConnKind::Heat,
                1000,
            ),
        );
    }
    if str_eq(name, "radar") && file_exists(disk, "ENTITIES/STRUCTURES/radar/static1.glb")
        && file_exists(disk, "ENTITIES/STRUCTURES/radar/static2.glb") {
        return Some(
            pair(
                "ENTITIES/STRUCTURES/radar/static1.glb".to_owned(),
                YawSource::Direction,
                "ENTITIES/STRUCTURES/radar/static2.glb".to_owned(),
                YawSource::Spin,
                footprint(name),
            ),
        );
    }
    if str_eq(name, "gun-turret") && file_exists(
        disk,
        "ENTITIES/STRUCTURES/gun-turret/static1.glb",
    ) && file_exists(disk, "ENTITIES/STRUCTURES/gun-turret/static2.glb") {
        return Some(
            pair(
                "ENTITIES/STRUCTURES/gun-turret/static1.glb".to_owned(),
                YawSource::Fixed,
                "ENTITIES/STRUCTURES/gun-turret/static2.glb".to_owned(),
                YawSource::Orientation,
                footprint(name),
            ),
        );
    }
    None
}

fn find_folder<'a>(folders: &'a NameMap<Vec<String>>, name: &str) -> (r: Option<&'a Vec<String>>)
    requires
        folders.wf(),
    ensures
        r is Some <==> folder_glbs(names_of(folders@), name@) is Some,
        r matches Some(v) ==> folder_glbs(names_of(folders@), name@) == Some(views(v@)),
{
    match folders.get(name) {
        Some(v) => {
            return Some(v);
        },
        None => {},
    }
    match alias(name) {
        Some(a) => match folders.get(a) {
            Some(v) => {
                return Some(v);
            },
            None => {},
        },
        None => {},
    }
    match strip_tier(name) {
        Some(t) => match folders.get(t.as_str()) {
            Some(v) => {
                return Some(v);
            },
            None => {},
        },
        None => {},
    }
    None
}

fn resolve_folder(folders: &NameMap<Vec<String>>, name: &str) -> (r: Option<EntityModel>)
    requires
        folders.wf(),
    ensures
        model_opt(r) == folder_model(names_of(folders@), name@),
{
    let kind: ConnKind = if ends_with(name, "-wall") {
        ConnKind::Wall
    } else if str_eq(name, "gate") {
        ConnKind::Gate
    } else {
        ConnKind::Plain
    };
    match find_folder(folders, name) {
        Some(rels) => Some(
            EntityModel {
                parts: make_parts(rels, YawSource::Direction),
                tiles: footprint(name),
                kind,
            },
        ),
        None => None,
    }
}

/// A model that the loader has read: its handle, and the duration of its clip
/// as the bits of a 32-bit float.
#[derive(Clone, Copy, PartialEq, Eq, Structural, Debug)]
pub struct LoadedModel {
    pub handle: u64,
    pub duration_bits: u32,
}

/// How far a model has come on its way from disk.
#[derive(Clone, Copy, PartialEq, Eq, Structural, Debug)]
pub enum LoadState {
    Loading,
    Ready(LoadedModel),
    Failed,
}

/// The models asked for so far, and the keys that the loader has yet to read.
#[verifier::ext_equal]
pub ghost struct Loads {
    pub states: Map<Seq<char>, LoadState>,
    pub queue: Seq<Seq<char>>,
}

/// The first request for a key queues it; later ones change nothing.
pub open spec fn request(l: Loads, key: Seq<char>) -> Loads {
    if l.states.contains_key(key) {
        l
    } else {
        Loads { states: l.states.insert(key, LoadState::Loading), queue: l.queue.push(key) }
    }
}

/// Requests for every key of a list, in order.
pub open spec fn request_all(l: Loads, keys: Seq<Seq<char>>) -> Loads
    decreases keys.len(),
{
    if keys.len() == 0 {
        l
    } else {
        request(request_all(l, keys.drop_last()), keys.last())
    }
}

/// The loaded model of a key.
pub open spec fn ready(l: Loads, key: Seq<char>) -> Option<LoadedModel> {
    if l.states.contains_key(key) {
        match l.states[key] {
            LoadState::Ready(m) => Some(m),
            _ => None,
        }
    } else {
        None
    }
}

/// What the registry remembers: the folders that were there at the start, the
/// models of the prototypes that were asked for, and which variants of a model
/// were there when they were first asked for.
#[verifier::ext_equal]
pub ghost struct Shelf {
    pub index: Seq<FolderSpec>,
    pub known: Map<Seq<char>, Option<EntityModelSpec>>,
    pub variants: Map<Seq<char>, bool>,
}

/// What the registry remembers, and what was asked of the loader.
#[verifier::ext_equal]
pub ghost struct Stock {
    pub shelf: Shelf,
    pub loads: Loads,
}

pub open spec fn models_of(m: Map<Seq<char>, Option<EntityModel>>) -> Map<
    Seq<char>,
    Option<EntityModelSpec>,
> {
    m.map_values(|m: Option<EntityModel>| model_opt(m))
}

/// The model registry.
pub struct Registry {
    index: Ghost<Seq<FolderSpec>>,
    by_name: NameMap<Vec<String>>,
    items_by_name: NameMap<String>,
    resolved: NameMap<Option<EntityModel>>,
    variants: NameMap<bool>,
    loaded: NameMap<LoadState>,
    queue: Vec<String>,
}

impl Registry {
    pub closed spec fn shelf(&self) -> Shelf {
        Shelf {
            index: self.index@,
            known: models_of(self.resolved@),
            variants: self.variants@,
        }
    }

    pub closed spec fn loads(&self) -> Loads {
        Loads { states: self.loaded@, queue: views(self.queue@) }
    }

    pub open spec fn stock(&self) -> Stock {
        Stock { shelf: self.shelf(), loads: self.loads() }
    }

    /// The indexes match the folders that were there at the start, and every model
    /// that is remembered has a part.
    pub closed spec fn wf(&self) -> bool {
        &&& self.by_name.wf()
        &&& self.items_by_name.wf()
        &&& self.resolved.wf()
        &&& self.variants.wf()
        &&& self.loaded.wf()
        &&& names_of(self.by_name@) == model_folders(self.index@)
        &&& items_of(self.items_by_name@) == item_models(self.index@)
        &&& forall|n: Seq<char>| #[trigger]
            self.resolved@.contains_key(n) ==> (model_opt(self.resolved@[n]) matches Some(m)
                ==> m.parts.len() > 0)
    }

    /// Asks for a key, and leaves the remembered answers as they are.
    fn ask(&mut self, key: &str) -> (r: Option<LoadedModel>)
        requires
            old(self).wf(),
        ensures
            final(self).wf(),
            final(self).shelf() == old(self).shelf(),
            final(self).loads() == request(old(self).loads(), key@),
            r == ready(old(self).loads(), key@),
    {
        match self.loaded.get(key) {
            Some(s) => match s {
                LoadState::Ready(m) => Some(*m),
                _ => None,
            },
            None => {
                let ghost before = views(self.queue@);
                self.loaded.insert(key.to_owned(), LoadState::Loading);
                self.queue.push(key.to_owned());
                assert(views(self.queue@) =~= before.push(key@));
                None
            },
        }
    }

    /// Asks for every state of the player, so that a change of pose never waits.
    fn ask_player(&mut self)
        requires
            old(self).wf(),
        ensures
            final(self).wf(),
            final(self).shelf() == old(self).shelf(),
            final(self).loads() == request_all(old(self).loads(), player_keys()),
    {
        let mut i: u8 = 0;
        let ghost start = self.loads();
        let ghost shelf = self.shelf();
        while i < 5
            invariant
                i <= 5,
                self.wf(),
                self.shelf() == shelf,
                self.loads() == request_all(start, player_keys().take(i as int)),
            decreases 5 - i,
        {
            assert(player_keys().take(i + 1).drop_last() =~= player_keys().take(i as int));
            assert(player_keys().take(i + 1).last() == player_key_of(i as int));
            assert(player_keys()[i as int] == player_key_of(i as int));
            let _ = self.ask(player_key(i));
            i = i + 1;
        }
        assert(player_keys().take(5) =~= player_keys());
    }

    /// The keys that the loader has yet to read; they leave the queue.
    pub fn take_queue(&mut self) -> (r: Vec<String>)
        requires
            old(self).wf(),
        ensures
            final(self).wf(),
            final(self).shelf() == old(self).shelf(),
            views(r@) == old(self).loads().queue,
            final(self).loads() == (Loads {
                states: old(self).loads().states,
                queue: Seq::empty(),
            }),
    {
        let r: Vec<String> = copy_names(&self.queue);
        self.queue = Vec::new();
        assert(views(self.queue@) =~= Seq::<Seq<char>>::empty());
        r
    }

    /// Takes what the loader has made of a key; nothing stands for a failure.
    pub fn finish_load(&mut self, key: &str, model: Option<LoadedModel>)
        requires
            old(self).wf(),
        ensures
            final(self).wf(),
            final(self).shelf() == old(self).shelf(),
            final(self).loads() == (Loads {
                states: old(self).loads().states.insert(
                    key@,
                    match model {
                        Some(m) => LoadState::Ready(m),
                        None => LoadState::Failed,
                    },
                ),
                queue: old(self).loads().queue,
            }),
    {
        match model {
            Some(m) => self.loaded.insert(key.to_owned(), LoadState::Ready(m)),
            None => self.loaded.insert(key.to_owned(), LoadState::Failed),
        }
    }
}

/// A registry of which nothing was asked yet.
pub open spec fn new_stock(index: Seq<FolderSpec>) -> Stock {
    Stock {
        shelf: Shelf { index, known: Map::empty(), variants: Map::empty() },
        loads: Loads { states: Map::empty(), queue: Seq::empty() },
    }
}

/// Indexes the models folder. Nothing is requested yet.
pub fn build_registry(tree: Vec<Folder>) -> (r: Registry)
    ensures
        r.wf(),
        r.stock() == new_stock(tree_of(tree@)),
{
    let mut by_name: NameMap<Vec<String>> = NameMap::new();
    assert(names_of(by_name@) =~= Map::<Seq<char>, Seq<Seq<char>>>::empty());
    scan_category(&mut by_name, "ENTITIES/STRUCTURES", &tree);
    scan_category(&mut by_name, "ENTITIES/VEHICLES", &tree);
    scan_category(&mut by_name, "ENTITIES/RESOURCES", &tree);
    scan_category(&mut by_name, "ENTITIES/FOLIAGE", &tree);
    let items_by_name: NameMap<String> = scan_items(&tree);
    let r = Registry {
        index: Ghost(tree_of(tree@)),
        by_name,
        items_by_name,
        resolved: NameMap::new(),
        variants: NameMap::new(),
        loaded: NameMap::new(),
        queue: Vec::new(),
    };
    assert(views(r.queue@) =~= Seq::<Seq<char>>::empty());
    assert(models_of(r.resolved@) =~= Map::<Seq<char>, Option<EntityModelSpec>>::empty());
    r
}

/// The loaded model of a key; the first request queues the key.
pub fn get(reg: &mut Registry, key: &str) -> (r: Option<LoadedModel>)
    requires
        old(reg).wf(),
    ensures
        final(reg).wf(),
        final(reg).shelf() == old(reg).shelf(),
        final(reg).loads() == request(old(reg).loads(), key@),
        r == ready(old(reg).loads(), key@),
{
    reg.ask(key)
}

/// The clip duration of a loaded model, as the bits of a 32-bit float; the
/// first request queues the key.
pub fn ready_duration(reg: &mut Registry, key: &str) -> (r: Option<u32>)
    requires
        old(reg).wf(),
    ensures
        final(reg).wf(),
        final(reg).shelf() == old(reg).shelf(),
        final(reg).loads() == request(old(reg).loads(), key@),
        r == match ready(old(reg).loads(), key@) {
            Some(m) => Some(m.duration_bits),
            None => None,
        },
{
    match reg.ask(key) {
        Some(m) => Some(m.duration_bits),
        None => None,
    }
}

/// The index of the first part that is not loaded.
pub open spec fn first_missing(l: Loads, parts: Seq<PartSpec>) -> Option<int>
    decreases parts.len(),
{
    if parts.len() == 0 {
        None
    } else if first_missing(l, parts.drop_last()) is Some {
        first_missing(l, parts.drop_last())
    } else if ready(l, parts.last().key) is None {
        Some(parts.len() - 1)
    } else {
        None
    }
}

/// Whether every part of a model is loaded, so that the entity's sprite can be
/// hidden. The first part that is not is requested.
pub fn all_ready(reg: &mut Registry, model: &EntityModel) -> (r: bool)
    requires
        old(reg).wf(),
    ensures
        final(reg).wf(),
        final(reg).shelf() == old(reg).shelf(),
        r == (forall|i: int|
            0 <= i < model@.parts.len() ==> ready(
                old(reg).loads(),
                (#[trigger] model@.parts[i]).key,
            ) is Some),
        final(reg).loads() == match first_missing(old(reg).loads(), model@.parts) {
            Some(i) => request(old(reg).loads(), model@.parts[i].key),
            None => old(reg).loads(),
        },
{
    let ghost start = reg.loads();
    let mut i: usize = 0;
    while i < model.parts.len()
        invariant
            i <= model.parts.len(),
            reg.wf(),
            reg.shelf() == old(reg).shelf(),
            reg.loads() == start,
            start == old(reg).loads(),
            first_missing(start, model@.parts.take(i as int)) is None,
            forall|k: int|
                0 <= k < i ==> ready(start, (#[trigger] model@.parts[k]).key) is Some,
        decreases model.parts.len() - i,
    {
        proof {
            let w = model@.parts.take(i + 1);
            assert(w.drop_last() =~= model@.parts.take(i as int));
            assert(w.last() == model@.parts[i as int]);
            assert(model@.parts[i as int].key == model.parts@[i as int].key@);
        }
        if ready_duration(reg, model.parts[i].key.as_str()).is_none() {
            proof {
                lemma_first_missing(start, model@.parts, i as int);
            }
            return false;
        }
        i = i + 1;
    }
    assert(model@.parts.take(model@.parts.len() as int) =~= model@.parts);
    true
}

proof fn lemma_first_missing(l: Loads, parts: Seq<PartSpec>, i: int)
    requires
        0 <= i < parts.len(),
        first_missing(l, parts.take(i + 1)) == Some(i),
    ensures
        first_missing(l, parts) == Some(i),
    decreases parts.len(),
{
    if i + 1 == parts.len() {
        assert(parts.take(i + 1) =~= parts);
    } else {
        assert(parts.drop_last().take(i + 1) =~= parts.take(i + 1));
        lemma_first_missing(l, parts.drop_last(), i);
    }
}

/// Whether an optional variant of a model is there, and what is remembered after
/// the question: the disk is asked once.
pub open spec fn variant(s: Shelf, d: DiskSpec, rel: Seq<char>) -> (bool, Shelf) {
    if s.variants.contains_key(rel) {
        (s.variants[rel], s)
    } else {
        (on_disk(d, rel), Shelf { variants: s.variants.insert(rel, on_disk(d, rel)), ..s })
    }
}

/// Whether the answer for an optional variant is remembered.
pub fn knows_variant(reg: &Registry, rel: &str) -> (r: bool)
    requires
        reg.wf(),
    ensures
        r == reg.shelf().variants.contains_key(rel@),
{
    reg.variants.contains(rel)
}

/// The key of an optional variant of a model, where its file was on disk when it
/// was first asked for.
pub fn optional_key(reg: &mut Registry, disk: &Disk, rel: &str) -> (r: Option<String>)
    requires
        old(reg).wf(),
    ensures
        final(reg).wf(),
        final(reg).loads() == old(reg).loads(),
        (r is Some, final(reg).shelf()) == variant(old(reg).shelf(), disk@, rel@),
        r matches Some(k) ==> k@ == rel@,
{
    let known: Option<bool> = match reg.variants.get(rel) {
        Some(b) => Some(*b),
        None => None,
    };
    let there: bool = match known {
        Some(b) => b,
        None => {
            let b: bool = file_exists(disk, rel);
            reg.variants.insert(rel.to_owned(), b);
            b
        },
    };
    if there {
        Some(rel.to_owned())
    } else {
        None
    }
}

/// What is remembered after questions for variants, each with the disk of its
/// moment.
pub open spec fn after_questions(s: Shelf, asked: Seq<(Seq<char>, DiskSpec)>) -> Shelf
    decreases asked.len(),
{
    if asked.len() == 0 {
        s
    } else {
        variant(after_questions(s, asked.drop_last()), asked.last().1, asked.last().0).1
    }
}

/// The disk of the first question for a variant.
pub open spec fn first_disk(asked: Seq<(Seq<char>, DiskSpec)>, rel: Seq<char>) -> Option<DiskSpec>
    decreases asked.len(),
{
    if asked.len() == 0 {
        None
    } else if first_disk(asked.drop_last(), rel) is Some {
        first_disk(asked.drop_last(), rel)
    } else if asked.last().0 == rel {
        Some(asked.last().1)
    } else {
        None
    }
}

/// Whatever is asked and whatever becomes of the disk, each question for a variant
/// gets the answer that the disk gave to the first one.
pub proof fn lemma_first_answer_stays(
    s: Shelf,
    asked: Seq<(Seq<char>, DiskSpec)>,
    rel: Seq<char>,
    d: DiskSpec,
)
    requires
        !s.variants.contains_key(rel),
    ensures
        variant(after_questions(s, asked), d, rel).0 == match first_disk(asked, rel) {
            Some(first) => on_disk(first, rel),
            None => on_disk(d, rel),
        },
        after_questions(s, asked).variants.contains_key(rel) <==> first_disk(asked, rel) is Some,
    decreases asked.len(),
{
    if asked.len() > 0 {
        lemma_first_answer_stays(s, asked.drop_last(), rel, asked.last().1);
        lemma_first_answer_stays(s, asked.drop_last(), rel, d);
    }
}

/// A model with the same parts.
pub fn copy_model(m: &EntityModel) -> (r: EntityModel)
    ensures
        r@ == m@,
{
    let mut parts: Vec<Part> = Vec::new();
    let mut i: usize = 0;
    while i < m.parts.len()
        invariant
            i <= m.parts.len(),
            part_views(parts@) == m@.parts.take(i as int),
        decreases m.parts.len() - i,
    {
        let ghost before = parts@;
        parts.push(Part { key: m.parts[i].key.clone(), yaw: m.parts[i].yaw });
        assert(part_views(parts@) =~= part_views(before).push(m@.parts[i as int]));
        assert(m@.parts.take(i + 1) =~= m@.parts.take(i as int).push(m@.parts[i as int]));
        i = i + 1;
    }
    assert(m@.parts.take(m@.parts.len() as int) =~= m@.parts);
    EntityModel { parts, tiles: m.tiles, kind: m.kind }
}

/// Works out the model of a prototype. A player has all its states requested.
fn resolve_uncached(reg: &mut Registry, disk: &Disk, proto_name: &str) -> (r: Option<EntityModel>)
    requires
        old(reg).wf(),
    ensures
        final(reg).wf(),
        final(reg).shelf() == old(reg).shelf(),
        model_opt(r) == resolve_of(old(reg).shelf().index, disk@, proto_name@),
        final(reg).loads() == if proto_name@ == "character"@ {
            request_all(old(reg).loads(), player_keys())
        } else {
            old(reg).loads()
        },
{
    if str_eq(proto_name, "character") {
        reg.ask_player();
    }
    match resolve_named(proto_name) {
        Some(m) => {
            return Some(m);
        },
        None => {},
    }
    match resolve_tiered(disk, proto_name) {
        Some(m) => {
            return Some(m);
        },
        None => {},
    }
    match resolve_jointed(disk, proto_name) {
        Some(m) => {
            return Some(m);
        },
        None => {},
    }
    resolve_folder(&reg.by_name, proto_name)
}

/// The model of a prototype, and what is remembered after it was asked for: it is
/// worked out once. A player then has all its states requested.
pub open spec fn resolved(s: Stock, d: DiskSpec, n: Seq<char>) -> (Option<EntityModelSpec>, Stock) {
    if s.shelf.known.contains_key(n) {
        (s.shelf.known[n], s)
    } else {
        let m = resolve_of(s.shelf.index, d, n);
        (
            m,
            Stock {
                shelf: Shelf { known: s.shelf.known.insert(n, m), ..s.shelf },
                loads: if n == "character"@ {
                    request_all(s.loads, player_keys())
                } else {
                    s.loads
                },
            },
        )
    }
}

/// The model of a prototype. The answer is remembered; a player has all its
/// states requested.
pub fn resolve(reg: &mut Registry, disk: &Disk, proto_name: &str) -> (r: Option<EntityModel>)
    requires
        old(reg).wf(),
    ensures
        final(reg).wf(),
        (model_opt(r), final(reg).stock()) == resolved(old(reg).stock(), disk@, proto_name@),
        r matches Some(m) ==> m.parts@.len() > 0,
{
    match reg.resolved.get(proto_name) {
        Some(m) => match m {
            Some(m) => {
                let copy: EntityModel = copy_model(m);
                assert(copy@.parts.len() == copy.parts@.len());
                Some(copy)
            },
            None => None,
        },
        None => {
            let model: Option<EntityModel> = resolve_uncached(reg, disk, proto_name);
            let kept: Option<EntityModel> = match &model {
                Some(m) => Some(copy_model(m)),
                None => None,
            };
            assert(model_opt(kept) == model_opt(model));
            let ghost before = reg.resolved@;
            reg.resolved.insert(proto_name.to_owned(), kept);
            proof {
                lemma_resolve_nonempty(reg.index@, disk@, proto_name@);
                assert(models_of(reg.resolved@) =~= models_of(before).insert(
                    proto_name@,
                    model_opt(model),
                ));
                if model is Some {
                    assert(model->0@.parts.len() == model->0.parts@.len());
                }
            }
            model
        },
    }
}

/// The model of a prototype stays what it was when it was first asked for,
/// whatever becomes of the disk and whatever else is asked for in between.
pub proof fn lemma_model_stays(
    s: Stock,
    d: DiskSpec,
    n: Seq<char>,
    other: Seq<char>,
    between: DiskSpec,
    later: DiskSpec,
)
    ensures
        ({
            let (m, first) = resolved(s, d, n);
            let mid = resolved(first, between, other).1;
            resolved(mid, later, n) == (m, mid)
        }),
{
}

/// The model of an item, its own or else the first part of its entity's model, and
/// what is remembered after it was asked for.
pub open spec fn item_resolved(s: Stock, d: DiskSpec, n: Seq<char>) -> (Option<Seq<char>>, Stock) {
    if item_models(s.shelf.index).contains_key(n) {
        (Some(item_models(s.shelf.index)[n]), s)
    } else {
        let (m, after) = resolved(s, d, n);
        (
            match m {
                Some(m) => Some(m.parts[0].key),
                None => None,
            },
            after,
        )
    }
}

/// Folders that hold no model take no name.
pub proof fn lemma_folders_nonempty(m: Names, cat: Seq<char>, tree: Seq<FolderSpec>)
    requires
        forall|n: Seq<char>| #[trigger] m.contains_key(n) ==> m[n].len() > 0,
    ensures
        forall|n: Seq<char>| #[trigger]
            add_category(m, cat, tree).contains_key(n) ==> add_category(m, cat, tree)[n].len() > 0,
    decreases tree.len(),
{
    if tree.len() > 0 {
        lemma_folders_nonempty(m, cat, tree.drop_last());
        let p = add_category(m, cat, tree.drop_last());
        let q = add_category(m, cat, tree);
        assert forall|n: Seq<char>| #[trigger] q.contains_key(n) implies q[n].len() > 0 by {
            if p.contains_key(n) {
                assert(p[n].len() > 0);
            }
        }
    }
}

/// Every model that a prototype resolves to has at least one part.
pub proof fn lemma_resolve_nonempty(tree: Seq<FolderSpec>, d: DiskSpec, n: Seq<char>)
    ensures
        resolve_of(tree, d, n) matches Some(m) ==> m.parts.len() > 0,
{
    let a = add_category(Map::empty(), "ENTITIES/STRUCTURES"@, tree);
    let b = add_category(a, "ENTITIES/VEHICLES"@, tree);
    let c = add_category(b, "ENTITIES/RESOURCES"@, tree);
    lemma_folders_nonempty(Map::empty(), "ENTITIES/STRUCTURES"@, tree);
    lemma_folders_nonempty(a, "ENTITIES/VEHICLES"@, tree);
    lemma_folders_nonempty(b, "ENTITIES/RESOURCES"@, tree);
    lemma_folders_nonempty(c, "ENTITIES/FOLIAGE"@, tree);
}

/// The model of an item. An item model wins; otherwise the entity's model
/// stands in, scaled down where it is drawn.
pub fn resolve_item(reg: &mut Registry, disk: &Disk, name: &str) -> (r: Option<String>)
    requires
        old(reg).wf(),
    ensures
        final(reg).wf(),
        (text_opt(r), final(reg).stock()) == item_resolved(old(reg).stock(), disk@, name@),
{
    match reg.items_by_name.get(name) {
        Some(rel) => {
            return Some(rel.clone());
        },
        None => {},
    }
    match resolve(reg, disk, name) {
        Some(m) => {
            assert(m@.parts[0].key == m.parts@[0].key@);
            Some(m.parts[0].key.clone())
        },
        None => None,
    }
}

/// The keys that are requested at startup: connectables draw only once per
/// chunk, so their models must be there before the first draw.
pub open spec fn startup_keys() -> Seq<Seq<char>> {
    seq![
        "ENTITIES/STRUCTURES/belts/belt-I.glb"@,
        "ENTITIES/STRUCTURES/belts/belt-L.glb"@,
        "ENTITIES/STRUCTURES/pipes/pipe-I.glb"@,
        "ENTITIES/STRUCTURES/pipes/pipe-to-ground.glb"@,
        "ENTITIES/STRUCTURES/heat-pipe/static.glb"@,
        "ENTITIES/STRUCTURES/stone-wall/static.glb"@,
        "ENTITIES/STRUCTURES/gate/static.glb"@,
        "ENTITIES/STRUCTURES/underground-belt/static.glb"@,
        "ENTITIES/STRUCTURES/splitter/static.glb"@,
        "ENTITIES/STRUCTURES/belts/fast/belt-I.glb"@,
        "ENTITIES/STRUCTURES/belts/fast/belt-L.glb"@,
        "ENTITIES/STRUCTURES/underground-belt/fast/static.glb"@,
        "ENTITIES/STRUCTURES/splitter/fast/static.glb"@,
        "ENTITIES/STRUCTURES/belts/express/belt-I.glb"@,
        "ENTITIES/STRUCTURES/belts/express/belt-L.glb"@,
        "ENTITIES/STRUCTURES/underground-belt/express/static.glb"@,
        "ENTITIES/STRUCTURES/splitter/express/static.glb"@,
        "ENTITIES/STRUCTURES/belts/turbo/belt-I.glb"@,
        "ENTITIES/STRUCTURES/belts/turbo/belt-L.glb"@,
        "ENTITIES/STRUCTURES/underground-belt/turbo/static.glb"@,
        "ENTITIES/STRUCTURES/splitter/turbo/static.glb"@,
    ]
}

/// Requests for those keys of a list whose files are on disk.
pub open spec fn request_present(l: Loads, d: DiskSpec, keys: Seq<Seq<char>>) -> Loads
    decreases keys.len(),
{
    if keys.len() == 0 {
        l
    } else {
        let before = request_present(l, d, keys.drop_last());
        if on_disk(d, keys.last()) {
            request(before, keys.last())
        } else {
            before
        }
    }
}

fn startup_list() -> (r: Vec<&'static str>)
    ensures
        r@.len() == startup_keys().len(),
        forall|i: int| 0 <= i < r@.len() ==> (#[trigger] r@[i])@ == startup_keys()[i],
{
    let mut r: Vec<&'static str> = Vec::new();
    r.push("ENTITIES/STRUCTURES/belts/belt-I.glb");
    r.push("ENTITIES/STRUCTURES/belts/belt-L.glb");
    r.push("ENTITIES/STRUCTURES/pipes/pipe-I.glb");
    r.push("ENTITIES/STRUCTURES/pipes/pipe-to-ground.glb");
    r.push("ENTITIES/STRUCTURES/heat-pipe/static.glb");
    r.push("ENTITIES/STRUCTURES/stone-wall/static.glb");
    r.push("ENTITIES/STRUCTURES/gate/static.glb");
    r.push("ENTITIES/STRUCTURES/underground-belt/static.glb");
    r.push("ENTITIES/STRUCTURES/splitter/static.glb");
    r.push("ENTITIES/STRUCTURES/belts/fast/belt-I.glb");
    r.push("ENTITIES/STRUCTURES/belts/fast/belt-L.glb");
    r.push("ENTITIES/STRUCTURES/underground-belt/fast/static.glb");
    r.push("ENTITIES/STRUCTURES/splitter/fast/static.glb");
    r.push("ENTITIES/STRUCTURES/belts/express/belt-I.glb");
    r.push("ENTITIES/STRUCTURES/belts/express/belt-L.glb");
    r.push("ENTITIES/STRUCTURES/underground-belt/express/static.glb");
    r.push("ENTITIES/STRUCTURES/splitter/express/static.glb");
    r.push("ENTITIES/STRUCTURES/belts/turbo/belt-I.glb");
    r.push("ENTITIES/STRUCTURES/belts/turbo/belt-L.glb");
    r.push("ENTITIES/STRUCTURES/underground-belt/turbo/static.glb");
    r.push("ENTITIES/STRUCTURES/splitter/turbo/static.glb");
    r
}

/// Indexes the models folder and requests the startup keys that are on disk.
pub fn init(tree: Vec<Folder>, disk: &Disk) -> (reg: Registry)
    ensures
        reg.wf(),
        reg.stock() == (Stock {
            loads: request_present(
                new_stock(tree_of(tree@)).loads,
                disk@,
                startup_keys(),
            ),
            ..new_stock(tree_of(tree@))
        }),
{
    let ghost t = tree_of(tree@);
    let mut reg: Registry = build_registry(tree);
    let ghost start = reg.loads();
    let keys: Vec<&'static str> = startup_list();
    let mut i: usize = 0;
    while i < keys.len()
        invariant
            i <= keys.len(),
            keys@.len() == startup_keys().len(),
            forall|k: int| 0 <= k < keys@.len() ==> (#[trigger] keys@[k])@ == startup_keys()[k],
            reg.wf(),
            reg.shelf() == new_stock(t).shelf,
            reg.loads() == request_present(start, disk@, startup_keys().take(i as int)),
        decreases keys.len() - i,
    {
        assert(startup_keys().take(i + 1).drop_last() =~= startup_keys().take(i as int));
        assert(keys@[i as int]@ == startup_keys().take(i + 1).last());
        if file_exists(disk, keys[i]) {
            let _ = get(&mut reg, keys[i]);
        }
        i = i + 1;
    }
    assert(startup_keys().take(keys@.len() as int) =~= startup_keys());
    reg
}

/// A key is queued at most once: asking again changes nothing.
pub proof fn lemma_request_once(l: Loads, key: Seq<char>)
    ensures
        request(request(l, key), key) == request(l, key),
        request(l, key).queue.len() <= l.queue.len() + 1,
        l.states.contains_key(key) ==> request(l, key).queue == l.queue,
{
}

/// A model that is loaded stays loaded, whatever is requested next.
pub proof fn lemma_ready_stays(l: Loads, key: Seq<char>, other: Seq<char>)
    requires
        ready(l, key) is Some,
    ensures
        ready(request(l, other), key) == ready(l, key),
{
}

/// Later categories only fill gaps: a name taken before stays as it was.
pub proof fn lemma_category_keeps(m: Names, cat: Seq<char>, tree: Seq<FolderSpec>, n: Seq<char>)
    requires
        m.contains_key(n),
    ensures
        add_category(m, cat, tree).contains_key(n),
        add_category(m, cat, tree)[n] == m[n],
    decreases tree.len(),
{
    if tree.len() > 0 {
        lemma_category_keeps(m, cat, tree.drop_last(), n);
    }
}

/// A structure's folder wins over every folder of the same name in another
/// category.
pub proof fn lemma_structures_win(tree: Seq<FolderSpec>, n: Seq<char>)
    requires
        add_category(Map::empty(), "ENTITIES/STRUCTURES"@, tree).contains_key(n),
    ensures
        model_folders(tree).contains_key(n),
        model_folders(tree)[n] == add_category(Map::empty(), "ENTITIES/STRUCTURES"@, tree)[n],
{
    let a = add_category(Map::empty(), "ENTITIES/STRUCTURES"@, tree);
    let b = add_category(a, "ENTITIES/VEHICLES"@, tree);
    let c = add_category(b, "ENTITIES/RESOURCES"@, tree);
    lemma_category_keeps(a, "ENTITIES/VEHICLES"@, tree, n);
    lemma_category_keeps(b, "ENTITIES/RESOURCES"@, tree, n);
    lemma_category_keeps(c, "ENTITIES/FOLIAGE"@, tree, n);
}

/// How wide a prototype stands, from one tile for whatever is not known to be larger
/// to nine for the rocket silo. No width is given to a prototype that does not have
/// it.
pub proof fn lemma_footprints(name: &str, r: u32)
    requires
        call_ensures(footprint, (name,), r),
    ensures
        ({
            let n = name@;
            &&& r == 1000 || r == 2000 || r == 3000 || r == 4000 || r == 5000 || r == 6000 || r == 9000
            &&& r == 2000 ==> n == "car"@ || n == "stone-furnace"@ || n == "steel-furnace"@ || n == "gun-turret"@ || n == "burner-mining-drill"@ || n == "accumulator"@ || n == "substation"@ || n == "big-electric-pole"@ || n == "train-stop"@ || n == "decider-combinator"@ || n == "arithmetic-combinator"@ || n == "pump"@ || n == "offshore-pump"@
            &&& r == 3000 ==> n == "assembling-machine-1"@ || n == "assembling-machine-2"@ || n == "assembling-machine-3"@ || n == "chemical-plant"@ || n == "centrifuge"@ || n == "lab"@ || n == "electric-furnace"@ || n == "radar"@ || n == "electric-mining-drill"@ || n == "pumpjack"@ || n == "beacon"@ || n == "solar-panel"@ || n == "storage-tank"@ || n == "boiler"@ || n == "heat-exchanger"@
            &&& r == 4000 ==> n == "tank"@ || n == "rocket-silo-rocket"@ || n == "roboport"@
            &&& r == 5000 ==> n == "oil-refinery"@ || n == "nuclear-reactor"@ || n == "steam-engine"@ || n == "steam-turbine"@
            &&& r == 6000 ==> n == "locomotive"@ || n == "cargo-wagon"@ || n == "fluid-wagon"@
            &&& r == 9000 ==> n == "rocket-silo"@
            &&& r == 1000 <==> !(n == "assembling-machine-1"@ || n == "assembling-machine-2"@ || n == "assembling-machine-3"@ || n == "chemical-plant"@ || n == "centrifuge"@ || n == "lab"@ || n == "electric-furnace"@ || n == "radar"@ || n == "electric-mining-drill"@ || n == "pumpjack"@ || n == "beacon"@ || n == "solar-panel"@ || n == "storage-tank"@ || n == "boiler"@ || n == "heat-exchanger"@ || n == "oil-refinery"@ || n == "nuclear-reactor"@ || n == "steam-engine"@ || n == "steam-turbine"@ || n == "tank"@ || n == "rocket-silo-rocket"@ || n == "roboport"@ || n == "car"@ || n == "stone-furnace"@ || n == "steel-furnace"@ || n == "gun-turret"@ || n == "burner-mining-drill"@ || n == "accumulator"@ || n == "substation"@ || n == "big-electric-pole"@ || n == "train-stop"@ || n == "decider-combinator"@ || n == "arithmetic-combinator"@ || n == "pump"@ || n == "offshore-pump"@ || n == "locomotive"@ || n == "cargo-wagon"@ || n == "fluid-wagon"@ || n == "rocket-silo"@)
        }),
{
}

/// A file is on disk where a folder holds an entry of its name; on a disk that ignores
/// case, also under another case of its letters.
pub proof fn lemma_files_on_disk(disk: &Disk, rel: &str, r: bool, i: int, j: int)
    requires
        call_ensures(file_exists, (disk, rel), r),
    ensures
        0 <= i < disk@.folders.len() && 0 <= j < disk@.folders[i].entries.len() && rel@
            == disk@.folders[i].path + "/"@ + disk@.folders[i].entries[j] ==> r,
        r && !disk.ignores_case ==> exists|a: int, b: int|
            0 <= a < disk@.folders.len() && 0 <= b < disk@.folders[a].entries.len() && rel@
                == disk@.folders[a].path + "/"@ + #[trigger] disk@.folders[a].entries[b],
        r ==> exists|a: int, b: int|
            0 <= a < disk@.folders.len() && 0 <= b < disk@.folders[a].entries.len() && rel@.len() == (
            disk@.folders[a].path + "/"@ + #[trigger] disk@.folders[a].entries[b]).len() && forall|k: int|
                0 <= k < rel@.len() ==> ascii_lower(#[trigger] rel@[k]) == ascii_lower(
                    (disk@.folders[a].path + "/"@ + disk@.folders[a].entries[b])[k],
                ),
{
    let d = disk@;
    if 0 <= i < d.folders.len() && 0 <= j < d.folders[i].entries.len() && rel@ == d.folders[i].path + "/"@
        + d.folders[i].entries[j] {
        assert(same_path(d.ignores_case, rel@, d.folders[i].path + "/"@ + d.folders[i].entries[j]));
        assert(holds_file(d.folders[i], d.ignores_case, rel@));
    }
    if r {
        let a = choose|a: int| 0 <= a < d.folders.len() && holds_file(#[trigger] d.folders[a], d.ignores_case, rel@);
        let b = choose|b: int|
            0 <= b < d.folders[a].entries.len() && same_path(
                d.ignores_case,
                rel@,
                d.folders[a].path + "/"@ + (#[trigger] d.folders[a].entries[b]),
            );
        assert(same_path(d.ignores_case, rel@, d.folders[a].path + "/"@ + d.folders[a].entries[b]));
    }
}

/// A glb is told by its extension, in either case.
pub proof fn lemma_glb_names(stem: Seq<char>)
    ensures
        is_glb(stem + ".glb"@),
        is_glb(stem + ".GLB"@),
        !is_glb(stem + ".png"@),
        forall|n: Seq<char>| #[trigger] is_glb(n) ==> n.len() >= 4 && n[n.len() - 4] == '.' && (n[n.len() - 3]
            == 'g' || n[n.len() - 3] == 'G') && (n[n.len() - 2] == 'l' || n[n.len() - 2] == 'L') && (n[n.len()
            - 1] == 'b' || n[n.len() - 1] == 'B'),
{
    reveal_strlit(".glb");
    reveal_strlit(".GLB");
    reveal_strlit(".png");
}

/// The first request for a model queues it and every later one does nothing, until it
/// is read or has failed; only what is read is ready.
pub proof fn lemma_requests(l: Loads, key: Seq<char>, other: Seq<char>)
    ensures
        l.states.contains_key(key) ==> request(l, key) == l,
        !l.states.contains_key(key) ==> request(l, key).queue == l.queue.push(key) && request(l, key).states
            == l.states.insert(key, LoadState::Loading),
        request(request(l, key), key) == request(l, key),
        ready(l, key) is Some <==> l.states.contains_key(key) && l.states[key] is Ready,
        ready(l, key) is Some ==> l.states[key] == LoadState::Ready(ready(l, key)->0),
        ready(request(l, key), other) == ready(l, other),
{
}

/// The model of a folder is made of its glbs: `static.glb`, or all that start with
/// `static` where there is none of that name, and then all that start with `animated`.
/// A folder with none of these shows the glb that comes first by name.
pub proof fn lemma_parts_of_a_folder(entries: &Vec<String>, r: Vec<String>, n: Seq<char>)
    requires
        call_ensures(pick_parts, (entries,), r),
    ensures
        ({
            let e = views(entries@);
            let p = views(r@);
            let plain = e.contains("static.glb"@);
            let fixed = |m: Seq<char>| e.contains(m) && is_glb(m) && has_prefix(m, "static"@);
            let moving = |m: Seq<char>| e.contains(m) && is_glb(m) && has_prefix(m, "animated"@);
            let named = plain || (exists|m: Seq<char>| #[trigger] fixed(m)) || exists|m: Seq<char>| #[trigger]
                moving(m);
            &&& p.contains(n) ==> e.contains(n) && is_glb(n)
            &&& plain ==> p.len() > 0 && p[0] == "static.glb"@
            &&& !plain && fixed(n) ==> p.contains(n)
            &&& moving(n) ==> p.contains(n)
            &&& named && p.contains(n) ==> moving(n) || (plain && n == "static.glb"@) || (!plain && fixed(n))
            &&& !named ==> p.len() <= 1
            &&& !named && e.contains(n) && is_glb(n) ==> p.len() == 1 && lex_le(p[0], n)
        }),
{
    let e = views(entries@);
    let p = views(r@);
    let only = e.filter(|m: Seq<char>| is_glb(m));
    let glbs = glbs_of(e);
    lemma_sort_names(only);
    assert forall|m: Seq<char>| #[trigger] glbs.contains(m) <==> only.contains(m) by {
        assert(glbs.to_multiset() == only.to_multiset());
        glbs.to_multiset_ensures();
        only.to_multiset_ensures();
        assert(glbs.to_multiset().count(m) == only.to_multiset().count(m));
        assert(glbs.to_multiset().contains(m) <==> only.to_multiset().contains(m));
    }
    assert forall|m: Seq<char>| #[trigger] only.contains(m) <==> e.contains(m) && is_glb(m) by {
        lemma_filtered(e, |m: Seq<char>| is_glb(m), m);
    }
    let st = glbs.filter(|m: Seq<char>| has_prefix(m, "static"@));
    let an = glbs.filter(|m: Seq<char>| has_prefix(m, "animated"@));
    assert forall|m: Seq<char>| #[trigger] st.contains(m) <==> glbs.contains(m) && has_prefix(m, "static"@) by {
        lemma_filtered(glbs, |m: Seq<char>| has_prefix(m, "static"@), m);
    }
    assert forall|m: Seq<char>| #[trigger] an.contains(m) <==> glbs.contains(m) && has_prefix(m, "animated"@) by {
        lemma_filtered(glbs, |m: Seq<char>| has_prefix(m, "animated"@), m);
    }
    let housing = if glbs.contains("static.glb"@) {
        seq!["static.glb"@]
    } else {
        st
    };
    assert(is_glb("static.glb"@)) by {
        reveal_strlit("static.glb");
    }
    let both = housing + an;
    assert forall|m: Seq<char>| #[trigger] both.contains(m) <==> housing.contains(m) || an.contains(m) by {
        if housing.contains(m) {
            let k = choose|k: int| 0 <= k < housing.len() && housing[k] == m;
            assert(both[k] == m);
        }
        if an.contains(m) {
            let k = choose|k: int| 0 <= k < an.len() && an[k] == m;
            assert(both[housing.len() + k] == m);
        }
        if both.contains(m) {
            let k = choose|k: int| 0 <= k < both.len() && both[k] == m;
            if k < housing.len() {
                assert(housing[k] == m);
            } else {
                assert(an[k - housing.len()] == m);
            }
        }
    }
    assert(seq!["static.glb"@][0] == "static.glb"@);
    let plain = e.contains("static.glb"@);
    let fixed = |m: Seq<char>| e.contains(m) && is_glb(m) && has_prefix(m, "static"@);
    let moving = |m: Seq<char>| e.contains(m) && is_glb(m) && has_prefix(m, "animated"@);
    if plain {
        assert(both[0] == "static.glb"@);
        assert(both.contains("static.glb"@));
    }
    if both.len() > 0 {
        assert(both.contains(both[0]));
        if !plain {
            assert(fixed(both[0]) || moving(both[0]));
        }
    }
    assert forall|m: Seq<char>| #[trigger] moving(m) implies both.len() > 0 by {
        assert(an.contains(m));
        assert(both.contains(m));
    }
    assert forall|m: Seq<char>| #[trigger] fixed(m) implies both.len() > 0 by {
        assert(st.contains(m));
        if !plain {
            assert(both.contains(m));
        }
    }
    if both.len() == 0 && glbs.len() > 0 {
        assert(glbs.contains(glbs[0]));
        if glbs.contains(n) {
            let k = choose|k: int| 0 <= k < glbs.len() && glbs[k] == n;
            if k == 0 {
                lemma_lex_total(n, n);
            }
        }
        assert(p[0] == glbs[0]);
    }
    if only.contains(n) {
        assert(glbs.contains(n));
    }
}

/// A tier of a structure has its own file where that is on disk, below the folder of
/// the structure, and otherwise that of the structure itself.
pub proof fn lemma_tier_files(disk: &Disk, folder: &str, sub: Option<&str>, file: &str, r: String)
    requires
        call_ensures(tier_file, (disk, folder, sub, file), r),
    ensures
        ({
            let stem = "ENTITIES/STRUCTURES/"@ + folder@ + "/"@;
            &&& sub is None ==> r@ == stem + file@
            &&& sub matches Some(t) ==> {
                let own = stem + t@ + "/"@ + file@;
                &&& on_disk(disk@, own) ==> r@ == own
                &&& !on_disk(disk@, own) ==> r@ == stem + file@
            }
        }),
{
}

/// The tier of a belt is what stands before its family's name.
pub proof fn lemma_belt_tiers(name: &str, suffix: &str, r: Option<&'static str>)
    requires
        call_ensures(belt_tier, (name, suffix), r),
    ensures
        name@ == "fast-"@ + suffix@ ==> r is Some && r->0@ == "fast"@,
        name@ == "express-"@ + suffix@ ==> r is Some && r->0@ == "express"@,
        name@ == "turbo-"@ + suffix@ ==> r is Some && r->0@ == "turbo"@,
        r matches Some(t) ==> name@ == t@ + "-"@ + suffix@,
{
    reveal_strlit("fast-");
    reveal_strlit("express-");
    reveal_strlit("turbo-");
    reveal_strlit("fast");
    reveal_strlit("express");
    reveal_strlit("turbo");
    reveal_strlit("-");
    assert("fast"@ + "-"@ =~= "fast-"@);
    assert("express"@ + "-"@ =~= "express-"@);
    assert("turbo"@ + "-"@ =~= "turbo-"@);
    assert(("fast-"@ + suffix@).len() == 5 + suffix@.len());
    assert(("express-"@ + suffix@).len() == 8 + suffix@.len());
    assert(("turbo-"@ + suffix@).len() == 6 + suffix@.len());
}

/// The folder of an inserter is what its name says before `-inserter`; the plain one
/// has none.
pub proof fn lemma_inserter_tiers(name: &str, r: Option<Option<&'static str>>)
    requires
        call_ensures(inserter_tier, (name,), r),
    ensures
        r matches Some(None) ==> name@ == "inserter"@,
        name@ == "inserter"@ ==> r == Some(None::<&'static str>),
        r is Some && r->0 is Some ==> name@ == r->0->0@ + "-inserter"@,
        r is Some <==> name@ == "inserter"@ || name@ == "burner-inserter"@ || name@ == "long-handed-inserter"@
            || name@ == "fast-inserter"@ || name@ == "bulk-inserter"@ || name@ == "stack-inserter"@,
{
    reveal_strlit("inserter");
    reveal_strlit("-inserter");
    reveal_strlit("burner-inserter");
    reveal_strlit("burner");
    reveal_strlit("long-handed-inserter");
    reveal_strlit("long-handed");
    reveal_strlit("fast-inserter");
    reveal_strlit("fast");
    reveal_strlit("bulk-inserter");
    reveal_strlit("bulk");
    reveal_strlit("stack-inserter");
    reveal_strlit("stack");
    assert("burner"@ + "-inserter"@ =~= "burner-inserter"@);
    assert("long-handed"@ + "-inserter"@ =~= "long-handed-inserter"@);
    assert("fast"@ + "-inserter"@ =~= "fast-inserter"@);
    assert("bulk"@ + "-inserter"@ =~= "bulk-inserter"@);
    assert("stack"@ + "-inserter"@ =~= "stack-inserter"@);
}

/// The folder of a logistic chest is what its name says behind `logistic-chest-`, or
/// before `-chest`.
pub proof fn lemma_chest_tiers(name: &str, r: Option<&'static str>)
    requires
        call_ensures(chest_tier, (name,), r),
    ensures
        r matches Some(t) ==> name@ == "logistic-chest-"@ + t@ || name@ == t@ + "-chest"@,
        r is Some <==> name@ == "logistic-chest-active-provider"@ || name@ == "active-provider-chest"@ || name@
            == "logistic-chest-passive-provider"@ || name@ == "passive-provider-chest"@ || name@
            == "logistic-chest-storage"@ || name@ == "storage-chest"@ || name@ == "logistic-chest-buffer"@ || name@
            == "buffer-chest"@ || name@ == "logistic-chest-requester"@ || name@ == "requester-chest"@,
{
    reveal_strlit("logistic-chest-");
    reveal_strlit("-chest");
    reveal_strlit("active-provider");
    reveal_strlit("passive-provider");
    reveal_strlit("storage");
    reveal_strlit("buffer");
    reveal_strlit("requester");
    reveal_strlit("logistic-chest-active-provider");
    reveal_strlit("active-provider-chest");
    reveal_strlit("logistic-chest-passive-provider");
    reveal_strlit("passive-provider-chest");
    reveal_strlit("logistic-chest-storage");
    reveal_strlit("storage-chest");
    reveal_strlit("logistic-chest-buffer");
    reveal_strlit("buffer-chest");
    reveal_strlit("logistic-chest-requester");
    reveal_strlit("requester-chest");
    assert("logistic-chest-"@ + "active-provider"@ =~= "logistic-chest-active-provider"@);
    assert("active-provider"@ + "-chest"@ =~= "active-provider-chest"@);
    assert("logistic-chest-"@ + "passive-provider"@ =~= "logistic-chest-passive-provider"@);
    assert("passive-provider"@ + "-chest"@ =~= "passive-provider-chest"@);
    assert("logistic-chest-"@ + "storage"@ =~= "logistic-chest-storage"@);
    assert("storage"@ + "-chest"@ =~= "storage-chest"@);
    assert("logistic-chest-"@ + "buffer"@ =~= "logistic-chest-buffer"@);
    assert("buffer"@ + "-chest"@ =~= "buffer-chest"@);
    assert("logistic-chest-"@ + "requester"@ =~= "logistic-chest-requester"@);
    assert("requester"@ + "-chest"@ =~= "requester-chest"@);
}

/// What is called a biter has a model, larger from tier to tier; nothing else has one
/// of these.
pub proof fn lemma_biters(name: &str, r: Option<(&'static str, u32)>)
    requires
        call_ensures(biter_model, (name,), r),
    ensures
        r is Some <==> has_text(name@, "biter"@),
        r matches Some(m) ==> {
            let (key, tiles) = m;
            let behemoth = has_text(name@, "behemoth"@);
            let big = has_text(name@, "big"@);
            let medium = has_text(name@, "medium"@);
            &&& behemoth ==> key@ == "ENTITIES/ENEMIES/biters/biter_tier4.glb"@ && tiles == 3600
            &&& !behemoth && big ==> key@ == "ENTITIES/ENEMIES/biters/biter_tier3.glb"@ && tiles == 2760
            &&& !behemoth && !big && medium ==> key@ == "ENTITIES/ENEMIES/biters/biter_tier2.glb"@ && tiles
                == 2208
            &&& !behemoth && !big && !medium ==> key@ == "ENTITIES/ENEMIES/biters/biter_tier1.glb"@ && tiles
                == 1656
        },
{
}

/// What a prototype's name says of its model, before any folder is looked at: the
/// player, spidertrons, biters, dead wood, rocks and trees. Rockets are no rocks.
pub proof fn lemma_models_by_name(index: Seq<FolderSpec>, d: DiskSpec, n: Seq<char>)
    ensures
        ({
            let r = resolve_of(index, d, n);
            let one = r is Some && r->0.parts.len() == 1 && r->0.kind == ConnKind::Plain;
            let key = r->0.parts[0].key;
            let yaw = r->0.parts[0].yaw;
            let tiles = r->0.tiles;
            let player = n == "character"@;
            let spider = n == "spidertron"@ || has_suffix(n, "-spidertron"@);
            let biter = has_text(n, "biter"@);
            let dead = has_prefix(n, "dead-"@) || has_prefix(n, "dry-"@);
            let rock = has_text(n, "rock"@) && !has_text(n, "rocket"@);
            let tree = has_prefix(n, "tree"@);
            let trunk = has_text(n, "trunk"@) || has_text(n, "dead-tree"@);
            &&& player ==> one && key == "ENTITIES/PLAYER/idle.glb"@ && yaw == YawSource::Direction && tiles
                == 1000
            &&& !player && spider ==> one && key == "ENTITIES/VEHICLES/spidertron/static.glb"@ && yaw
                == YawSource::Direction && tiles == 5000
            &&& !player && !spider && biter ==> one && yaw == YawSource::Orientation && biter_model_of(n) == Some(
                (key, tiles),
            )
            &&& !player && !spider && !biter && dead ==> one && tiles == 1400 && yaw == YawSource::Direction && (
            trunk ==> key == "BLUEPRINTS/ground-system/ground-clutter/assets/branch1/static.glb"@) && (!trunk
                ==> key == "BLUEPRINTS/ground-system/ground-clutter/assets/bush1/static.glb"@)
            &&& !player && !spider && !biter && !dead && rock ==> one && key
                == "BLUEPRINTS/ground-system/ground-clutter/assets/rock1/static.glb"@ && (has_text(n, "huge"@)
                ==> tiles == 2600) && (!has_text(n, "huge"@) ==> tiles == 2000)
            &&& !player && !spider && !biter && !dead && !rock && tree ==> one && key == tree_model_of(n) && tiles
                == 1500
        }),
{
}

/// Belts, underground belts and splitters of every tier connect as what they are, with
/// the file of their tier where it is there. Inserters have a base and an arm of the
/// same tier, and logistic chests their colour.
pub proof fn lemma_models_by_tier(index: Seq<FolderSpec>, d: DiskSpec, n: Seq<char>)
    requires
        named_model(n) is None,
    ensures
        ({
            let r = resolve_of(index, d, n);
            let m = r->0;
            let belt = n == "transport-belt"@ || has_suffix(n, "-transport-belt"@);
            let under_ = n == "underground-belt"@ || has_suffix(n, "-underground-belt"@);
            let split = n == "splitter"@ || has_suffix(n, "-splitter"@);
            let arm = inserter_tier_of(n);
            let chest = chest_tier_of(n);
            &&& belt ==> r is Some && m.kind == ConnKind::Belt && m.tiles == 1000 && m.parts.len() == 1
                && m.parts[0].key == tier_file_of(d, "belts"@, belt_tier_of(n, "transport-belt"@), "belt-I.glb"@)
                && m.parts[0].yaw == YawSource::Direction
            &&& !belt && under_ ==> r is Some && m.kind == ConnKind::Under && m.tiles == 1000 && m.parts.len() == 1
                && m.parts[0].key == tier_file_of(
                d,
                "underground-belt"@,
                belt_tier_of(n, "underground-belt"@),
                "static.glb"@,
            )
            &&& !belt && !under_ && split ==> r is Some && m.kind == ConnKind::Splitter && m.tiles == 2000
                && m.parts.len() == 1 && m.parts[0].key == tier_file_of(
                d,
                "splitter"@,
                belt_tier_of(n, "splitter"@),
                "static.glb"@,
            )
            &&& !belt && !under_ && !split && arm is Some ==> r is Some && m.kind == ConnKind::Plain && m.tiles
                == 1000 && m.parts.len() == 2 && m.parts[0].key == tier_file_of(
                d,
                "inserter"@,
                arm->0,
                "static.glb"@,
            ) && m.parts[1].key == tier_file_of(d, "inserter"@, arm->0, "animated1.glb"@) && m.parts[0].yaw
                == YawSource::Direction && m.parts[1].yaw == YawSource::Direction
            &&& !belt && !under_ && !split && arm is None && chest is Some ==> r is Some && m.kind
                == ConnKind::Plain && m.tiles == 1000 && m.parts.len() == 1 && m.parts[0].key == tier_file_of(
                d,
                "logistic-chests"@,
                chest,
                "static.glb"@,
            )
        }),
{
}

/// Pipes and heat pipes connect as what they are. A radar and a gun turret whose two
/// parts are on disk turn apart: the radar's dish spins on a base that stands as the
/// building does, and the turret's head follows its aim on a base that is fixed.
pub proof fn lemma_models_of_two_parts(index: Seq<FolderSpec>, d: DiskSpec, n: Seq<char>)
    requires
        named_model(n) is None,
        tiered_model(d, n) is None,
    ensures
        ({
            let r = resolve_of(index, d, n);
            let m = r->0;
            &&& n == "pipe"@ ==> r is Some && m.kind == ConnKind::Pipe && m.parts.len() == 1 && m.parts[0].key
                == "ENTITIES/STRUCTURES/pipes/pipe-I.glb"@
            &&& n == "radar"@ && n != "pipe"@ && n != "pipe-to-ground"@ && n != "heat-pipe"@ && on_disk(
                d,
                "ENTITIES/STRUCTURES/radar/static1.glb"@,
            ) && on_disk(d, "ENTITIES/STRUCTURES/radar/static2.glb"@) ==> r is Some && m.parts.len() == 2
                && m.parts[0].key == "ENTITIES/STRUCTURES/radar/static1.glb"@ && m.parts[0].yaw
                == YawSource::Direction && m.parts[1].key == "ENTITIES/STRUCTURES/radar/static2.glb"@
                && m.parts[1].yaw == YawSource::Spin
            &&& n == "gun-turret"@ && n != "pipe"@ && n != "pipe-to-ground"@ && n != "heat-pipe"@ && n
                != "radar"@ && on_disk(d, "ENTITIES/STRUCTURES/gun-turret/static1.glb"@) && on_disk(
                d,
                "ENTITIES/STRUCTURES/gun-turret/static2.glb"@,
            ) ==> r is Some && m.parts.len() == 2 && m.parts[0].key
                == "ENTITIES/STRUCTURES/gun-turret/static1.glb"@ && m.parts[0].yaw == YawSource::Fixed
                && m.parts[1].key == "ENTITIES/STRUCTURES/gun-turret/static2.glb"@ && m.parts[1].yaw
                == YawSource::Orientation
            &&& n == "pipe-to-ground"@ && n != "pipe"@ ==> r is Some && m.kind == ConnKind::PipeEnd && m.parts.len()
                == 1 && m.parts[0].key == "ENTITIES/STRUCTURES/pipes/pipe-to-ground.glb"@
            &&& n == "heat-pipe"@ && n != "pipe"@ && n != "pipe-to-ground"@ ==> r is Some && m.kind
                == ConnKind::Heat && m.parts.len() == 1 && m.parts[0].key
                == "ENTITIES/STRUCTURES/heat-pipe/static.glb"@
        }),
{
}

/// Anything else has the model of its folder: that of its own name, or else of the
/// name that stands for it, or else of its name without the number behind the last
/// dash. All its parts turn with it; walls and gates connect.
pub proof fn lemma_models_by_folder(index: Seq<FolderSpec>, d: DiskSpec, n: Seq<char>, k: int)
    requires
        named_model(n) is None,
        tiered_model(d, n) is None,
        jointed_model(d, n) is None,
    ensures
        ({
            let f = model_folders(index);
            let r = resolve_of(index, d, n);
            let m = r->0;
            let other = if n == "coal"@ {
                Some("coal-ore"@)
            } else if n == "rocket-silo-rocket"@ {
                Some("rocket"@)
            } else {
                None
            };
            let short = strip_tier_of(n);
            let by_other = other is Some && f.contains_key(other->0);
            let by_short = short is Some && f.contains_key(short->0);
            let rels = if f.contains_key(n) {
                f[n]
            } else if by_other {
                f[other->0]
            } else {
                f[short->0]
            };
            &&& r is Some <==> f.contains_key(n) || by_other || by_short
            &&& r is Some ==> m.tiles == footprint_of(n) && m.parts.len() == rels.len()
            &&& r is Some && 0 <= k < rels.len() ==> m.parts[k].key == rels[k] && m.parts[k].yaw
                == YawSource::Direction
            &&& r is Some ==> (m.kind == ConnKind::Wall <==> has_suffix(n, "-wall"@))
            &&& r is Some && n == "gate"@ && !has_suffix(n, "-wall"@) ==> m.kind == ConnKind::Gate
            &&& r is Some && n != "gate"@ && !has_suffix(n, "-wall"@) ==> m.kind == ConnKind::Plain
        }),
{
}

/// A name without its tier is what stands before a dash and digits, and only that.
pub proof fn lemma_name_without_tier(n: Seq<char>)
    ensures
        strip_tier_of(n) matches Some(t) ==> t.len() < n.len() && n[t.len() as int] == '-' && n.take(
            t.len() as int,
        ) == t && forall|i: int| t.len() < i < n.len() ==> '0' <= #[trigger] n[i] <= '9',
        strip_tier_of(n) is None ==> forall|k: int|
            0 <= k < n.len() && #[trigger] n[k] == '-' ==> exists|i: int|
                k < i < n.len() && !('0' <= #[trigger] n[i] <= '9'),
    decreases n.len(),
{
    if n.len() > 0 && n.last() == '-' {
        assert(n.take(n.len() - 1) =~= n.drop_last());
    }
    if n.len() > 0 && n.last() != '-' {
        let d = n.drop_last();
        if '0' <= n.last() <= '9' {
            lemma_name_without_tier(d);
            match strip_tier_of(n) {
                Some(t) => {
                    assert(n.take(t.len() as int) =~= d.take(t.len() as int));
                    assert forall|i: int| t.len() < i < n.len() implies '0' <= #[trigger] n[i] <= '9' by {
                        if i < d.len() {
                            assert(d[i] == n[i]);
                        }
                    }
                },
                None => {
                    assert forall|k: int| 0 <= k < n.len() && #[trigger] n[k] == '-' implies exists|i: int|
                        k < i < n.len() && !('0' <= #[trigger] n[i] <= '9') by {
                        assert(d[k] == '-');
                        let i = choose|i: int| k < i < d.len() && !('0' <= #[trigger] d[i] <= '9');
                        assert(!('0' <= n[i] <= '9'));
                    }
                },
            }
        } else {
            assert forall|k: int| 0 <= k < n.len() && #[trigger] n[k] == '-' implies exists|i: int|
                k < i < n.len() && !('0' <= #[trigger] n[i] <= '9') by {
                assert(!('0' <= n[n.len() - 1] <= '9'));
            }
        }
    }
}

/// A folder holds the model `n` of a category: it lies directly below it, under that
/// name, and has parts.
pub open spec fn houses(f: FolderSpec, cat: Seq<char>, n: Seq<char>) -> bool {
    &&& f.path == cat + "/"@ + n
    &&& n.len() > 0
    &&& !n.contains('/')
    &&& parts_of(f.entries).len() > 0
}

proof fn lemma_category(m: Names, cat: Seq<char>, tree: Seq<FolderSpec>, n: Seq<char>, k: int)
    requires
        0 <= k <= tree.len(),
        !m.contains_key(n),
    ensures
        ({
            let r = add_category(m, cat, tree.take(k));
            &&& r.contains_key(n) <==> exists|i: int| 0 <= i < k && houses(#[trigger] tree[i], cat, n)
            &&& r.contains_key(n) ==> exists|i: int|
                0 <= i < k && houses(#[trigger] tree[i], cat, n) && r[n] == under(
                    cat + "/"@ + n + "/"@,
                    parts_of(tree[i].entries),
                ) && forall|j: int| 0 <= j < i ==> !houses(#[trigger] tree[j], cat, n)
        }),
    decreases k,
{
    if k > 0 {
        lemma_category(m, cat, tree, n, k - 1);
        assert(tree.take(k).drop_last() =~= tree.take(k - 1));
        let f = tree[k - 1];
        assert(tree.take(k).last() == f);
        let b = add_category(m, cat, tree.take(k - 1));
        let r = add_category(m, cat, tree.take(k));
        if names_child(f.path, cat, n) {
            let name = choose|x: Seq<char>| names_child(f.path, cat, x);
            lemma_child_unique(f.path, cat, n, name);
        } else if exists|x: Seq<char>| names_child(f.path, cat, x) {
            let name = choose|x: Seq<char>| names_child(f.path, cat, x);
            assert(name != n);
        }
        if b.contains_key(n) {
            let i = choose|i: int|
                0 <= i < k - 1 && houses(#[trigger] tree[i], cat, n) && b[n] == under(
                    cat + "/"@ + n + "/"@,
                    parts_of(tree[i].entries),
                ) && forall|j: int| 0 <= j < i ==> !houses(#[trigger] tree[j], cat, n);
            assert(r[n] == b[n]);
            assert(houses(tree[i], cat, n));
        } else if houses(f, cat, n) {
            assert(r.contains_key(n));
            assert(houses(tree[k - 1], cat, n));
        } else {
            assert(!r.contains_key(n));
        }
    } else {
        assert(tree.take(0) =~= Seq::<FolderSpec>::empty());
    }
}

/// A name stands for the first folder of that name that has parts: one of structures,
/// or else of vehicles, of resources, and of foliage last. Its parts lie below it.
pub proof fn lemma_which_folder_has_a_name(tree: Seq<FolderSpec>, n: Seq<char>, cat: Seq<char>, k: int)
    requires
        ({
            let taken = |c: Seq<char>| exists|i: int| 0 <= i < tree.len() && houses(#[trigger] tree[i], c, n);
            ||| cat == "ENTITIES/STRUCTURES"@
            ||| cat == "ENTITIES/VEHICLES"@ && !taken("ENTITIES/STRUCTURES"@)
            ||| cat == "ENTITIES/RESOURCES"@ && !taken("ENTITIES/STRUCTURES"@) && !taken("ENTITIES/VEHICLES"@)
            ||| cat == "ENTITIES/FOLIAGE"@ && !taken("ENTITIES/STRUCTURES"@) && !taken("ENTITIES/VEHICLES"@) && !taken(
                "ENTITIES/RESOURCES"@,
            )
        }),
        0 <= k < tree.len(),
        houses(tree[k], cat, n),
        forall|j: int| 0 <= j < k ==> !houses(#[trigger] tree[j], cat, n),
    ensures
        model_folders(tree).contains_key(n),
        model_folders(tree)[n] == under(cat + "/"@ + n + "/"@, parts_of(tree[k].entries)),
{
    let z = tree.len() as int;
    assert(tree.take(z) =~= tree);
    let a = add_category(Map::empty(), "ENTITIES/STRUCTURES"@, tree);
    let b = add_category(a, "ENTITIES/VEHICLES"@, tree);
    let c = add_category(b, "ENTITIES/RESOURCES"@, tree);
    lemma_category(Map::empty(), "ENTITIES/STRUCTURES"@, tree, n, z);
    if a.contains_key(n) {
        lemma_category_keeps(a, "ENTITIES/VEHICLES"@, tree, n);
    } else {
        lemma_category(a, "ENTITIES/VEHICLES"@, tree, n, z);
    }
    if b.contains_key(n) {
        lemma_category_keeps(b, "ENTITIES/RESOURCES"@, tree, n);
    } else {
        lemma_category(b, "ENTITIES/RESOURCES"@, tree, n, z);
    }
    if c.contains_key(n) {
        lemma_category_keeps(c, "ENTITIES/FOLIAGE"@, tree, n);
    } else {
        lemma_category(c, "ENTITIES/FOLIAGE"@, tree, n, z);
    }
}

/// An item has the first part of its own folder, and otherwise the first part of the
/// entity of its name.
pub proof fn lemma_models_of_items(s: Stock, d: DiskSpec, n: Seq<char>)
    ensures
        ({
            let own = item_models(s.shelf.index);
            let (r, after) = item_resolved(s, d, n);
            let (m, later) = resolved(s, d, n);
            &&& own.contains_key(n) ==> r == Some(own[n]) && after == s
            &&& !own.contains_key(n) ==> after == later
            &&& !own.contains_key(n) && m is Some ==> r == Some(m->0.parts[0].key)
            &&& !own.contains_key(n) && m is None ==> r is None
        }),
{
}

/// The folder of an item adds its first part under its name.
pub proof fn lemma_items_by_folder(m: Items, f: FolderSpec, n: Seq<char>, other: Seq<char>)
    requires
        f.path == "ENTITIES/ITEMS"@ + "/"@ + n,
        n.len() > 0,
        !n.contains('/'),
    ensures
        parts_of(f.entries).len() > 0 ==> add_item(m, f).contains_key(n) && add_item(m, f)[n] == "ENTITIES/ITEMS"@ + "/"@
            + n + "/"@ + parts_of(f.entries)[0],
        parts_of(f.entries).len() == 0 ==> add_item(m, f) == m,
        other != n ==> add_item(m, f).contains_key(other) == m.contains_key(other) && (m.contains_key(other)
            ==> add_item(m, f)[other] == m[other]),
{
    assert(names_child(f.path, "ENTITIES/ITEMS"@, n));
    let name = choose|x: Seq<char>| names_child(f.path, "ENTITIES/ITEMS"@, x);
    lemma_child_unique(f.path, "ENTITIES/ITEMS"@, n, name);
}

/// The part that is asked for is the first that is not loaded.
pub proof fn lemma_first_part_missing(l: Loads, parts: Seq<PartSpec>, n: int)
    requires
        0 <= n <= parts.len(),
    ensures
        first_missing(l, parts.take(n)) matches Some(i) ==> 0 <= i < n && ready(l, parts[i].key) is None && forall|
            j: int,
        |
            0 <= j < i ==> ready(l, (#[trigger] parts[j]).key) is Some,
        first_missing(l, parts.take(n)) is None ==> forall|j: int|
            0 <= j < n ==> ready(l, (#[trigger] parts[j]).key) is Some,
    decreases n,
{
    if n > 0 {
        lemma_first_part_missing(l, parts, n - 1);
        assert(parts.take(n).drop_last() =~= parts.take(n - 1));
        assert(parts.take(n).last() == parts[n - 1]);
    }
}

/// Trees are spread over five models by the hash of their name.
pub proof fn lemma_trees(n: Seq<char>, b: Seq<u8>, x: u8)
    ensures
        tree_hash(b.push(x)) == (31 * tree_hash(b) + x) % 0x1_0000_0000,
        tree_hash(Seq::empty()) == 0,
        ({
            let k = tree_hash(encode_utf8(n)) % 5;
            let r = tree_model_of(n);
            &&& k == 0 ==> r == "ENTITIES/FOLIAGE/tree1/static.glb"@
            &&& k == 1 ==> r == "ENTITIES/FOLIAGE/tree2/static.glb"@
            &&& k == 2 ==> r == "ENTITIES/FOLIAGE/tree3/static.glb"@
            &&& k == 3 ==> r == "ENTITIES/FOLIAGE/tree4/static.glb"@
            &&& k == 4 ==> r == "ENTITIES/FOLIAGE/tree5/static.glb"@
        }),
{
    assert(b.push(x).drop_last() =~= b);
}

} // verus!
