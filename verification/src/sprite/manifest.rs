use std::path::{Path, PathBuf};
use vstd::prelude::*;

verus! {

/// `Path` from std, carried through as an opaque value.
#[verifier::external_type_specification]
#[verifier::external_body]
pub struct ExPath(Path);

/// `PathBuf` from std, carried through as an opaque value.
#[verifier::external_type_specification]
#[verifier::external_body]
pub struct ExPathBuf(PathBuf);

/// Whether a sprite depicts an enemy or an item icon.
#[derive(Debug, Clone, Copy, PartialEq, Eq, Structural)]
pub enum SpriteCategory {
    Enemy,
    Item,
}

/// One sprite the game expects to find among its assets.
#[derive(Debug, Clone, Copy)]
pub struct SpriteSpec {
    pub name: &'static str,
    pub category: SpriteCategory,
    pub description: &'static str,
}

/// Directory, relative to the asset root, that holds sprites of a category.
pub open spec fn category_dir(category: SpriteCategory) -> Seq<char> {
    match category {
        SpriteCategory::Enemy => "sprites/enemies"@,
        SpriteCategory::Item => "sprites/items"@,
    }
}

/// `<category dir>/<name>.png`
pub open spec fn spec_asset_path(spec: SpriteSpec) -> Seq<char> {
    category_dir(spec.category) + "/"@ + spec.name@ + ".png"@
}

/// What `Path::join` gives for `base` and the relative component `part`.
pub uninterp spec fn joined_path(base: &Path, part: Seq<char>) -> PathBuf;

/// What `Path::join`, reached from a `PathBuf`, gives for `base` and the
/// relative component `part`.
pub uninterp spec fn joined_path_buf(base: PathBuf, part: Seq<char>) -> PathBuf;

/// Joins `base` with the relative component `part` (`Path::join`). The
/// result depends on the two arguments alone: it is `joined_path` of them.
#[verifier::external_body]
fn path_join(base: &Path, part: &str) -> (r: PathBuf)
    ensures
        r == joined_path(base, part@),
{
    base.join(part)
}

/// Joins the path held in `base` with the relative component `part`
/// (`Path::join` through `PathBuf`'s deref): `joined_path_buf` of them.
#[verifier::external_body]
fn path_buf_join(base: &PathBuf, part: &str) -> (r: PathBuf)
    ensures
        r == joined_path_buf(*base, part@),
{
    base.join(part)
}

/// Whether the file system has an entry at `p` (`Path::exists`). The answer
/// depends on the disk at the time of the call, so nothing is stated of it.
#[verifier::external_body]
fn path_exists(p: &PathBuf) -> bool {
    p.exists()
}

/// The sprite's file: the asset path joined onto the `assets` folder of `root`.
pub open spec fn spec_full_path(spec: SpriteSpec, root: &Path) -> PathBuf {
    joined_path_buf(joined_path(root, "assets"@), spec_asset_path(spec))
}

impl SpriteSpec {
    /// Asset-relative path of the sprite file.
    pub fn asset_path(&self) -> (r: String)
        ensures
            r@ == spec_asset_path(*self),
    {
        let mut r = match self.category {
            SpriteCategory::Enemy => String::from_str("sprites/enemies"),
            SpriteCategory::Item => String::from_str("sprites/items"),
        };
        r.append("/");
        r.append(self.name);
        r.append(".png");
        r
    }

    /// `<project_root>/assets/<asset path>`.
    pub fn full_path(&self, project_root: &Path) -> (r: PathBuf)
        ensures
            r == spec_full_path(*self, project_root),
    {
        let assets = path_join(project_root, "assets");
        let rel = self.asset_path();
        path_buf_join(&assets, rel.as_str())
    }
}

} // verus!

verus! {

/// Every sprite the game loads, in the order they are generated.
pub open spec fn spec_manifest() -> Seq<SpriteSpec> {
    seq![
        SpriteSpec { name: "bat", category: SpriteCategory::Enemy, description: "紫色の飛行コウモリ、赤い目" },
        SpriteSpec { name: "golem", category: SpriteCategory::Enemy, description: "灰色の岩ゴーレム、光る目" },
        SpriteSpec { name: "slime_ii", category: SpriteCategory::Enemy, description: "大型の深緑スライム、体内に光る核、トゲのある表面" },
        SpriteSpec { name: "bat_ii", category: SpriteCategory::Enemy, description: "赤紫の炎を纏うコウモリ、光る翼、鋭い牙" },
        SpriteSpec { name: "golem_ii", category: SpriteCategory::Enemy, description: "青い水晶で構成されたゴーレム、発光するコア、角張った体" },
        SpriteSpec { name: "weapon", category: SpriteCategory::Item, description: "短剣/剣、金属刃+革柄" },
        SpriteSpec { name: "head", category: SpriteCategory::Item, description: "ヘルメット/帽子" },
        SpriteSpec { name: "torso", category: SpriteCategory::Item, description: "胸鎧/革ベスト" },
        SpriteSpec { name: "legs", category: SpriteCategory::Item, description: "ブーツ/脛当て" },
        SpriteSpec { name: "shield", category: SpriteCategory::Item, description: "丸盾/木製+金属縁" },
        SpriteSpec { name: "charm", category: SpriteCategory::Item, description: "魔法のアミュレット、宝石+鎖" },
        SpriteSpec { name: "backpack", category: SpriteCategory::Item, description: "革の小型バッグ" },
        SpriteSpec { name: "potion", category: SpriteCategory::Item, description: "赤い回復ポーション瓶" },
    ]
}

/// The sprite manifest as a vector.
pub fn sprite_manifest() -> (r: Vec<SpriteSpec>)
    ensures
        r@ == spec_manifest(),
{
    let r = vec![
        SpriteSpec { name: "bat", category: SpriteCategory::Enemy, description: "紫色の飛行コウモリ、赤い目" },
        SpriteSpec { name: "golem", category: SpriteCategory::Enemy, description: "灰色の岩ゴーレム、光る目" },
        SpriteSpec { name: "slime_ii", category: SpriteCategory::Enemy, description: "大型の深緑スライム、体内に光る核、トゲのある表面" },
        SpriteSpec { name: "bat_ii", category: SpriteCategory::Enemy, description: "赤紫の炎を纏うコウモリ、光る翼、鋭い牙" },
        SpriteSpec { name: "golem_ii", category: SpriteCategory::Enemy, description: "青い水晶で構成されたゴーレム、発光するコア、角張った体" },
        SpriteSpec { name: "weapon", category: SpriteCategory::Item, description: "短剣/剣、金属刃+革柄" },
        SpriteSpec { name: "head", category: SpriteCategory::Item, description: "ヘルメット/帽子" },
        SpriteSpec { name: "torso", category: SpriteCategory::Item, description: "胸鎧/革ベスト" },
        SpriteSpec { name: "legs", category: SpriteCategory::Item, description: "ブーツ/脛当て" },
        SpriteSpec { name: "shield", category: SpriteCategory::Item, description: "丸盾/木製+金属縁" },
        SpriteSpec { name: "charm", category: SpriteCategory::Item, description: "魔法のアミュレット、宝石+鎖" },
        SpriteSpec { name: "backpack", category: SpriteCategory::Item, description: "革の小型バッグ" },
        SpriteSpec { name: "potion", category: SpriteCategory::Item, description: "赤い回復ポーション瓶" },
    ];
    assert(r@ =~= spec_manifest());
    r
}

} // verus!

verus! {

/// Character-wise equality of two string slices.
pub fn str_eq(a: &str, b: &str) -> (r: bool)
    ensures
        r == (a@ == b@),
{
    let n = a.unicode_len();
    if n != b.unicode_len() {
        return false;
    }
    let mut i: usize = 0;
    while i < n
        invariant
            n == a@.len(),
            n == b@.len(),
            i <= n,
            forall|j: int| 0 <= j < i ==> a@[j] == b@[j],
        decreases n - i,
    {
        if a.get_char(i) != b.get_char(i) {
            return false;
        }
        i = i + 1;
    }
    assert(a@ =~= b@);
    true
}

/// Index of the first spec in `specs` named `name`, if any.
pub open spec fn first_named(specs: Seq<SpriteSpec>, name: Seq<char>) -> Option<int>
    decreases specs.len(),
{
    if specs.len() == 0 {
        None
    } else if specs[0].name@ == name {
        Some(0)
    } else {
        match first_named(specs.drop_first(), name) {
            Some(i) => Some(i + 1),
            None => None,
        }
    }
}

proof fn lemma_first_named(specs: Seq<SpriteSpec>, name: Seq<char>)
    ensures
        match first_named(specs, name) {
            Some(i) => 0 <= i < specs.len() && specs[i].name@ == name
                && forall|j: int| 0 <= j < i ==> specs[j].name@ != name,
            None => forall|j: int| 0 <= j < specs.len() ==> specs[j].name@ != name,
        },
    decreases specs.len(),
{
    if specs.len() > 0 {
        lemma_first_named(specs.drop_first(), name);
        assert forall|j: int| 1 <= j < specs.len() implies specs[j] == specs.drop_first()[j - 1] by {}
    }
}

/// The manifest entry named `name`, the first one if several share it.
pub fn find_sprite(name: &str) -> (r: Option<SpriteSpec>)
    ensures
        r == (match first_named(spec_manifest(), name@) {
            Some(i) => Some(spec_manifest()[i]),
            None => None,
        }),
{
    let specs = sprite_manifest();
    let mut i: usize = 0;
    proof { lemma_first_named(specs@, name@); }
    while i < specs.len()
        invariant
            specs@ == spec_manifest(),
            i <= specs.len(),
            forall|j: int| 0 <= j < i ==> specs@[j].name@ != name@,
            match first_named(specs@, name@) {
                Some(k) => 0 <= k < specs@.len() && specs@[k].name@ == name@
                    && forall|j: int| 0 <= j < k ==> specs@[j].name@ != name@,
                None => forall|j: int| 0 <= j < specs@.len() ==> specs@[j].name@ != name@,
            },
        decreases specs.len() - i,
    {
        if str_eq(specs[i].name, name) {
            let found = specs[i];
            return Some(found);
        }
        i = i + 1;
    }
    None
}

/// The specs whose `present` flag is false, in the order they are listed.
pub open spec fn select_missing(specs: Seq<SpriteSpec>, present: Seq<bool>) -> Seq<SpriteSpec>
    decreases specs.len(),
{
    if specs.len() == 0 {
        Seq::empty()
    } else {
        let rest = select_missing(specs.drop_last(), present);
        if present[specs.len() - 1] {
            rest
        } else {
            rest.push(specs.last())
        }
    }
}

/// Keeps the manifest entries whose file is reported absent:
/// `present[i]` tells whether the file of manifest entry `i` exists.
pub fn missing_from_presence(present: &Vec<bool>) -> (r: Vec<SpriteSpec>)
    requires
        present@.len() == spec_manifest().len(),
    ensures
        r@ == select_missing(spec_manifest(), present@),
{
    let specs = sprite_manifest();
    let mut r: Vec<SpriteSpec> = Vec::new();
    let mut i: usize = 0;
    while i < specs.len()
        invariant
            specs@ == spec_manifest(),
            present@.len() == specs@.len(),
            i <= specs.len(),
            r@ == select_missing(specs@.take(i as int), present@),
        decreases specs.len() - i,
    {
        assert(specs@.take(i + 1).drop_last() =~= specs@.take(i as int));
        if !present[i] {
            r.push(specs[i]);
        }
        i = i + 1;
    }
    assert(specs@.take(specs.len() as int) =~= specs@);
    r
}

/// The file of every manifest entry under `project_root`, in manifest order.
pub fn sprite_file_paths(project_root: &Path) -> (r: Vec<PathBuf>)
    ensures
        r@.len() == spec_manifest().len(),
        forall|i: int| 0 <= i < r@.len() ==> #[trigger] r@[i] == spec_full_path(spec_manifest()[i], project_root),
{
    let specs = sprite_manifest();
    let mut r: Vec<PathBuf> = Vec::new();
    let mut i: usize = 0;
    while i < specs.len()
        invariant
            specs@ == spec_manifest(),
            i <= specs.len(),
            r@.len() == i,
            forall|k: int| 0 <= k < i ==> #[trigger] r@[k] == spec_full_path(spec_manifest()[k], project_root),
        decreases specs.len() - i,
    {
        r.push(specs[i].full_path(project_root));
        i = i + 1;
    }
    r
}

/// Manifest entries whose file is not found under `project_root`: the file
/// of each entry (`sprite_file_paths`) is probed in turn, and the entries
/// reported absent are kept. Which files exist is up to the disk: the result
/// is the manifest filtered by some presence flags, one per entry, in
/// manifest order.
pub fn find_missing_sprites(project_root: &Path) -> (r: Vec<SpriteSpec>)
    ensures
        exists|present: Seq<bool>|
            present.len() == spec_manifest().len() && r@ == #[trigger] select_missing(spec_manifest(), present),
{
    let paths = sprite_file_paths(project_root);
    let mut present: Vec<bool> = Vec::new();
    let mut i: usize = 0;
    while i < paths.len()
        invariant
            paths@.len() == spec_manifest().len(),
            i <= paths.len(),
            present@.len() == i,
        decreases paths.len() - i,
    {
        present.push(path_exists(&paths[i]));
        i = i + 1;
    }
    let r = missing_from_presence(&present);
    assert(present@.len() == spec_manifest().len() && r@ == select_missing(spec_manifest(), present@));
    r
}

/// `idx` picks the elements of `a` out of `b`, in order.
pub open spec fn subsequence_witness<T>(a: Seq<T>, b: Seq<T>, idx: Seq<int>) -> bool {
    &&& idx.len() == a.len()
    &&& forall|i: int, j: int| 0 <= i < j < idx.len() ==> #[trigger] idx[i] < #[trigger] idx[j]
    &&& forall|i: int| 0 <= i < idx.len() ==> 0 <= #[trigger] idx[i] < b.len() && b[idx[i]] == a[i]
}

/// `a` is `b` with some elements left out.
pub open spec fn is_subsequence<T>(a: Seq<T>, b: Seq<T>) -> bool {
    exists|idx: Seq<int>| #[trigger] subsequence_witness(a, b, idx)
}

/// More files found present never add a missing sprite: whatever is missing
/// under the larger presence flags was missing under the smaller ones, in
/// the same order.
pub proof fn lemma_more_present_fewer_missing(specs: Seq<SpriteSpec>, p1: Seq<bool>, p2: Seq<bool>)
    requires
        specs.len() <= p1.len(),
        specs.len() <= p2.len(),
        forall|i: int| 0 <= i < specs.len() && #[trigger] p1[i] ==> p2[i],
    ensures
        is_subsequence(select_missing(specs, p2), select_missing(specs, p1)),
    decreases specs.len(),
{
    let r1 = select_missing(specs, p1);
    let r2 = select_missing(specs, p2);
    if specs.len() == 0 {
        assert(subsequence_witness(r2, r1, Seq::<int>::empty()));
    } else {
        let n = specs.len() - 1;
        let rest = specs.drop_last();
        lemma_more_present_fewer_missing(rest, p1, p2);
        let rest1 = select_missing(rest, p1);
        let rest2 = select_missing(rest, p2);
        let idx = choose|idx: Seq<int>| #[trigger] subsequence_witness(rest2, rest1, idx);
        if p1[n] {
            assert(subsequence_witness(r2, r1, idx));
        } else if p2[n] {
            assert(r1 == rest1.push(specs.last()));
            assert(subsequence_witness(r2, r1, idx));
        } else {
            let idx2 = idx.push(rest1.len() as int);
            assert(r1 == rest1.push(specs.last()));
            assert(r2 == rest2.push(specs.last()));
            assert(subsequence_witness(r2, r1, idx2));
        }
    }
}

/// Never more missing sprites than specs; with nothing present, every spec
/// is missing, in order.
pub proof fn lemma_missing_bounds(specs: Seq<SpriteSpec>, present: Seq<bool>)
    requires
        specs.len() <= present.len(),
    ensures
        select_missing(specs, present).len() <= specs.len(),
        (forall|i: int| 0 <= i < specs.len() ==> !#[trigger] present[i]) ==> select_missing(specs, present) == specs,
    decreases specs.len(),
{
    if specs.len() > 0 {
        lemma_missing_bounds(specs.drop_last(), present);
        if forall|i: int| 0 <= i < specs.len() ==> !#[trigger] present[i] {
            assert(!present[specs.len() - 1]);
            assert(forall|i: int| 0 <= i < specs.drop_last().len() ==> !#[trigger] present[i]);
            assert(specs.drop_last().push(specs.last()) =~= specs);
        }
    }
}

} // verus!
