//! Project asset management: asset kinds, the resource trees shown in the asset panel,
//! their roots and refresh schedule, and the rules for new folder and resource names.
//!
//! Paths are kept as strings; directories are joined with `/`.

use crate::paths::{
    loose_extension, loose_path, name_extension, path_extension, piece_extension,
    plain_name_extension, single_name, slash_path,
};
use crate::text::{
    append_str, chars_eq, chars_of, chars_to_ascii_lower, is_blank, lower_seq, seq_lt, str_lt,
    string_from_chars, trim_str, trimmed,
};
use vstd::prelude::*;

verus! {

broadcast use vstd::string::group_string_axioms;

/// How often, in milliseconds, the asset folders are scanned again on their own.
pub const ASSET_SCAN_INTERVAL_MS: u64 = 120_000;

/// A file or folder of a resource tree.
pub enum AssetEntry {
    Folder { name: String, path: String, children: Vec<AssetEntry> },
    File { name: String, path: String },
}

/// Data carried while an image is dragged inside the editor.
pub struct ImageAssetDragPayload {
    pub path: String,
}

/// Data carried while a sound is dragged inside the editor.
pub struct AudioAssetDragPayload {
    pub path: String,
}

/// The template file an actor asset dragged onto the canvas carries.
pub struct ActorAssetDragPayload {
    pub path: String,
}

/// The animation file an animation asset dragged onto the canvas carries.
pub struct AnimationAssetDragPayload {
    pub path: String,
}

/// The resource category a new folder is created in.
#[derive(Clone, Copy, PartialEq, Eq, Structural, Debug)]
pub enum AssetCategory {
    Actor,
    Blueprint,
    Animation,
    AssetsTextures,
    AssetsAudio,
    AssetsTilesets,
    AssetsUi,
}

/// The kind of an imported file.
#[derive(Clone, Copy, PartialEq, Eq, Structural, Debug)]
pub enum AssetKind {
    Image,
    Audio,
    Animation,
    Tileset,
}

/// The result of one import; the caller decides from the kind whether to place an object.
pub struct ImportedAsset {
    pub kind: AssetKind,
    pub path: String,
}

/// The asset kind of a file extension, compared without regard to ASCII case.
pub open spec fn extension_kind(extension: Seq<char>) -> Option<AssetKind> {
    let e = lower_seq(extension);
    if e == "png"@ {
        Some(AssetKind::Image)
    } else if e == "wav"@ || e == "ogg"@ || e == "mp3"@ || e == "flac"@ {
        Some(AssetKind::Audio)
    } else if e == "s2anim"@ {
        Some(AssetKind::Animation)
    } else if e == "s2tileset"@ {
        Some(AssetKind::Tileset)
    } else {
        None
    }
}

/// Returns the asset kind of a file extension: PNG images, WAV/OGG/MP3/FLAC audio,
/// animations and tilesets.
pub fn kind_for_extension(extension: &str) -> (r: Option<AssetKind>)
    ensures
        r == extension_kind(extension@),
{
    let e = chars_to_ascii_lower(&chars_of(extension));
    if chars_eq(&e, &chars_of("png")) {
        Some(AssetKind::Image)
    } else if chars_eq(&e, &chars_of("wav")) || chars_eq(&e, &chars_of("ogg")) || chars_eq(
        &e,
        &chars_of("mp3"),
    ) || chars_eq(&e, &chars_of("flac")) {
        Some(AssetKind::Audio)
    } else if chars_eq(&e, &chars_of("s2anim")) {
        Some(AssetKind::Animation)
    } else if chars_eq(&e, &chars_of("s2tileset")) {
        Some(AssetKind::Tileset)
    } else {
        None
    }
}

/// Classifies a file by its extension; for a single plain file name, and for a path of
/// names joined by `/` (`.` pieces, repeated separators and a trailing `/` allowed), the
/// kind is that of the part of the file name after its last `.`.
pub fn classify_file(path: &str) -> (r: Option<AssetKind>)
    ensures
        single_name(path@) ==> r == match name_extension(path@) {
            Some(e) => extension_kind(e),
            None => None,
        },
        slash_path(path@) ==> r == match piece_extension(path@) {
            Some(e) => extension_kind(e),
            None => None,
        },
        loose_path(path@) ==> r == match loose_extension(path@) {
            Some(e) => extension_kind(e),
            None => None,
        },
{
    match path_extension(path) {
        Some(extension) => kind_for_extension(extension.as_str()),
        None => None,
    }
}

/// Whether an extension is in a list, compared without regard to ASCII case.
pub open spec fn extension_listed(extension: Seq<char>, extensions: Seq<String>) -> bool {
    exists|i: int| 0 <= i < extensions.len() && lower_seq(#[trigger] extensions[i]@) == lower_seq(extension)
}

/// Whether an extension is in a list, compared without regard to ASCII case.
fn listed(e: &str, extensions: &Vec<String>) -> (r: bool)
    ensures
        r == extension_listed(e@, extensions@),
{
    let lower = chars_to_ascii_lower(&chars_of(e));
    let mut i: usize = 0;
    while i < extensions.len()
        invariant
            i <= extensions@.len(),
            lower@ == lower_seq(e@),
            forall|j: int| 0 <= j < i ==> lower_seq(#[trigger] extensions@[j]@) != lower_seq(e@),
        decreases extensions@.len() - i,
    {
        let allowed = chars_to_ascii_lower(&chars_of(extensions[i].as_str()));
        if chars_eq(&allowed, &lower) {
            assert(lower_seq(extensions@[i as int]@) == lower_seq(e@));
            return true;
        }
        i = i + 1;
    }
    false
}

/// Whether a file's extension is one of the allowed ones; a file without one never is.
pub fn has_extension(extension: Option<&str>, extensions: &Vec<String>) -> (r: bool)
    ensures
        r == match extension {
            Some(e) => extension_listed(e@, extensions@),
            None => false,
        },
{
    match extension {
        Some(e) => listed(e, extensions),
        None => false,
    }
}

/// The name of a resource entry.
pub open spec fn entry_name(e: AssetEntry) -> Seq<char> {
    match e {
        AssetEntry::Folder { name, .. } => name@,
        AssetEntry::File { name, .. } => name@,
    }
}

/// Inserts an entry behind every entry whose name does not sort after it.
pub open spec fn insert_entry(sorted: Seq<AssetEntry>, e: AssetEntry) -> Seq<AssetEntry>
    decreases sorted.len(),
{
    if sorted.len() == 0 {
        seq![e]
    } else if !seq_lt(entry_name(e), entry_name(sorted.last())) {
        sorted.push(e)
    } else {
        insert_entry(sorted.drop_last(), e).push(sorted.last())
    }
}

/// A stable sort of entries by name.
pub open spec fn sort_entries(s: Seq<AssetEntry>) -> Seq<AssetEntry>
    decreases s.len(),
{
    if s.len() == 0 {
        s
    } else {
        insert_entry(sort_entries(s.drop_last()), s.last())
    }
}

/// The name of an entry.
fn name_of(e: &AssetEntry) -> (r: &String)
    ensures
        r@ == entry_name(*e),
{
    match e {
        AssetEntry::Folder { name, .. } => name,
        AssetEntry::File { name, .. } => name,
    }
}

/// Stable insertion of one entry into a list sorted by name.
fn insert_sorted(sorted: &mut Vec<AssetEntry>, e: AssetEntry)
    ensures
        final(sorted)@ == insert_entry(old(sorted)@, e),
    decreases old(sorted)@.len(),
{
    let n = sorted.len();
    if n == 0 {
        sorted.push(e);
        assert(sorted@ =~= seq![e]);
        return ;
    }
    if !str_lt(name_of(&e).as_str(), name_of(&sorted[n - 1]).as_str()) {
        sorted.push(e);
        return ;
    }
    let last = sorted.pop().unwrap();
    insert_sorted(sorted, e);
    sorted.push(last);
}

/// Sorts entries by name, keeping entries with equal names in their order.
pub fn sort_by_name(entries: Vec<AssetEntry>) -> (r: Vec<AssetEntry>)
    ensures
        r@ == sort_entries(entries@),
{
    let mut rest = entries;
    let ghost all = rest@;
    let mut sorted: Vec<AssetEntry> = Vec::new();
    while rest.len() > 0
        invariant
            rest@.len() <= all.len(),
            rest@ == all.skip(all.len() - rest@.len()),
            sorted@ == sort_entries(all.take(all.len() - rest@.len())),
        decreases rest@.len(),
    {
        let ghost n = all.len() - rest@.len();
        let e = rest.remove(0);
        proof {
            assert(all.take(n + 1).drop_last() =~= all.take(n));
            assert(all.skip(n)[0] == e);
            assert(all.take(n + 1).last() == e);
            assert(rest@ =~= all.skip(n + 1));
        }
        insert_sorted(&mut sorted, e);
    }
    assert(all.take(all.len() as int) =~= all);
    sorted
}

/// The file paths of a resource tree, depth first in tree order.
pub open spec fn tree_files(entries: Seq<AssetEntry>) -> Seq<Seq<char>>
    decreases entries,
{
    if entries.len() == 0 {
        seq![]
    } else {
        let last = entries.last();
        proof {
            assert(decreases_to!(entries => entries[entries.len() - 1]));
        }
        tree_files(entries.drop_last()) + match last {
            AssetEntry::Folder { children, .. } => {
                proof {
                    assert(decreases_to!(entries => children@));
                }
                tree_files(children@)
            },
            AssetEntry::File { path, .. } => seq![path@],
        }
    }
}

/// Collects the file paths of a resource tree, depth first in tree order.
pub fn asset_file_paths(entries: &Vec<AssetEntry>) -> (r: Vec<String>)
    ensures
        r@.map_values(|p: String| p@) == tree_files(entries@),
    decreases entries@,
{
    let mut paths: Vec<String> = Vec::new();
    let mut i: usize = 0;
    while i < entries.len()
        invariant
            i <= entries@.len(),
            paths@.map_values(|p: String| p@) == tree_files(entries@.take(i as int)),
        decreases entries@.len() - i,
    {
        let ghost before = paths@;
        proof {
            assert(entries@.take(i + 1).drop_last() =~= entries@.take(i as int));
            assert(entries@.take(i + 1).last() == entries@[i as int]);
        }
        match &entries[i] {
            AssetEntry::Folder { children, .. } => {
                proof {
                    assert(decreases_to!(entries@ => children@));
                }
                let mut sub = asset_file_paths(children);
                let ghost sub_view = sub@;
                paths.append(&mut sub);
                proof {
                    assert(paths@ == before + sub_view);
                    assert(paths@.map_values(|p: String| p@) =~= before.map_values(|p: String| p@)
                        + sub_view.map_values(|p: String| p@));
                }
            },
            AssetEntry::File { path, .. } => {
                paths.push(path.clone());
                proof {
                    assert(paths@.map_values(|p: String| p@) =~= before.map_values(|p: String| p@)
                        + seq![path@]);
                }
            },
        }
        i = i + 1;
    }
    assert(entries@.take(entries@.len() as int) =~= entries@);
    paths
}

/// What the host found in one directory: a subfolder with its arranged content, or a file
/// with the extension its path has, if any.
pub enum ScannedItem {
    Folder { name: String, path: String, children: Vec<AssetEntry> },
    File { name: String, path: String, extension: Option<String> },
}

/// Whether a scanned item stays in the tree: folders always, files with an allowed
/// extension.
pub open spec fn keeps(item: ScannedItem, extensions: Seq<String>) -> bool {
    match item {
        ScannedItem::Folder { .. } => true,
        ScannedItem::File { extension, .. } => match extension {
            Some(e) => extension_listed(e@, extensions),
            None => false,
        },
    }
}

/// The entry a kept item becomes.
pub open spec fn item_entry(item: ScannedItem) -> AssetEntry {
    match item {
        ScannedItem::Folder { name, path, children } => AssetEntry::Folder { name, path, children },
        ScannedItem::File { name, path, .. } => AssetEntry::File { name, path },
    }
}

/// The entries of the kept items, in scan order.
pub open spec fn kept_entries(items: Seq<ScannedItem>, extensions: Seq<String>) -> Seq<AssetEntry>
    decreases items.len(),
{
    if items.len() == 0 {
        seq![]
    } else {
        kept_entries(items.drop_last(), extensions) + if keeps(items.last(), extensions) {
            seq![item_entry(items.last())]
        } else {
            seq![]
        }
    }
}

/// Builds one directory level of a resource tree: subfolders are kept, files only with an
/// allowed extension, and the entries are sorted by name.
pub fn arrange_directory(items: Vec<ScannedItem>, extensions: &Vec<String>) -> (r: Vec<AssetEntry>)
    ensures
        r@ == sort_entries(kept_entries(items@, extensions@)),
{
    let mut rest = items;
    let ghost all = rest@;
    let mut kept: Vec<AssetEntry> = Vec::new();
    while rest.len() > 0
        invariant
            rest@.len() <= all.len(),
            rest@ == all.skip(all.len() - rest@.len()),
            kept@ == kept_entries(all.take(all.len() - rest@.len()), extensions@),
        decreases rest@.len(),
    {
        let ghost n = all.len() - rest@.len();
        let item = rest.remove(0);
        proof {
            assert(all.take(n + 1).drop_last() =~= all.take(n));
            assert(all.skip(n)[0] == item);
            assert(all.take(n + 1).last() == item);
            assert(rest@ =~= all.skip(n + 1));
        }
        match item {
            ScannedItem::Folder { name, path, children } => {
                kept.push(AssetEntry::Folder { name, path, children });
            },
            ScannedItem::File { name, path, extension } => {
                let allowed = match &extension {
                    Some(e) => listed(e.as_str(), extensions),
                    None => false,
                };
                if allowed {
                    kept.push(AssetEntry::File { name, path });
                }
            },
        }
    }
    assert(all.take(all.len() as int) =~= all);
    sort_by_name(kept)
}

/// The concatenation of several lists.
pub open spec fn concat_lists(lists: Seq<Vec<AssetEntry>>) -> Seq<AssetEntry>
    decreases lists.len(),
{
    if lists.len() == 0 {
        seq![]
    } else {
        concat_lists(lists.drop_last()) + lists.last()@
    }
}

/// Merges the trees of several compatible directories into one list sorted by name; each
/// directory keeps its own folder hierarchy.
pub fn merge_scans(lists: Vec<Vec<AssetEntry>>) -> (r: Vec<AssetEntry>)
    ensures
        r@ == sort_entries(concat_lists(lists@)),
{
    let mut rest = lists;
    let ghost all = rest@;
    let mut merged: Vec<AssetEntry> = Vec::new();
    while rest.len() > 0
        invariant
            rest@.len() <= all.len(),
            rest@ == all.skip(all.len() - rest@.len()),
            merged@ == concat_lists(all.take(all.len() - rest@.len())),
        decreases rest@.len(),
    {
        let ghost n = all.len() - rest@.len();
        let mut list = rest.remove(0);
        proof {
            assert(all.take(n + 1).drop_last() =~= all.take(n));
            assert(all.skip(n)[0] == list);
            assert(all.take(n + 1).last() == list);
            assert(rest@ =~= all.skip(n + 1));
        }
        let ghost before = merged@;
        let ghost added = list@;
        merged.append(&mut list);
        assert(merged@ == before + added);
    }
    assert(all.take(all.len() as int) =~= all);
    sort_by_name(merged)
}

/// A path below a directory: the two joined with `/`, or the child alone below an empty
/// directory.
pub open spec fn joined(base: Seq<char>, child: Seq<char>) -> Seq<char> {
    if base.len() == 0 {
        child
    } else if base.last() == '/' {
        base + child
    } else {
        base + "/"@ + child
    }
}

/// Joins a relative path below a directory.
pub fn join_path(base: &str, child: &str) -> (r: String)
    ensures
        r@ == joined(base@, child@),
{
    let mut v = chars_of(base);
    if v.len() > 0 && v[v.len() - 1] != '/' {
        append_str(&mut v, "/");
    }
    append_str(&mut v, child);
    string_from_chars(&v)
}

/// The extension of a single plain name.
fn extension_of_name(name: &Vec<char>) -> (r: Option<Vec<char>>)
    ensures
        match r {
            Some(e) => plain_name_extension(name@) == Some(e@),
            None => plain_name_extension(name@) is None,
        },
{
    let dot = chars_of(".");
    let dots = chars_of("..");
    if chars_eq(name, &dot) || chars_eq(name, &dots) {
        return None;
    }
    let mut i: usize = name.len();
    while i > 1
        invariant
            i <= name@.len(),
            name@ != "."@ && name@ != ".."@,
            forall|j: int| i <= j < name@.len() ==> name@[j] != '.',
        decreases i,
    {
        if name[i - 1] == '.' {
            let mut e: Vec<char> = Vec::new();
            let mut k: usize = i;
            while k < name.len()
                invariant
                    1 <= i <= k <= name@.len(),
                    name@ != "."@ && name@ != ".."@,
                    name@[i - 1] == '.',
                    forall|j: int| i <= j < name@.len() ==> name@[j] != '.',
                    e@ == name@.subrange(i as int, k as int),
                decreases name@.len() - k,
            {
                e.push(name[k]);
                assert(name@.subrange(i as int, k + 1) =~= name@.subrange(i as int, k as int).push(
                    name@[k as int],
                ));
                k = k + 1;
            }
            proof {
                let w = (i - 1) as int;
                assert(0 < w < name@.len() && name@[w] == '.');
                assert(forall|j: int| w < j < name@.len() ==> name@[j] != '.');
                assert(name@ != "."@ && name@ != ".."@);
                let c = choose|c: int|
                    0 < c < name@.len() && name@[c] == '.' && forall|j: int|
                        c < j < name@.len() ==> name@[j] != '.';
                assert(c == w) by {
                    if c < w {
                        assert(name@[w] != '.');
                    }
                    if c > w {
                        assert(name@[c] != '.');
                    }
                }
            }
            return Some(e);
        }
        i = i - 1;
    }
    proof {
        if exists|c: int| 0 < c < name@.len() && name@[c] == '.' {
            let c = choose|c: int| 0 < c < name@.len() && name@[c] == '.';
            assert(name@[c] != '.');
        }
    }
    None
}

/// Whether a name holds a character Windows does not allow in file names.
pub open spec fn has_forbidden_char(s: Seq<char>) -> bool {
    exists|i: int|
        0 <= i < s.len() && {
            let c = #[trigger] s[i];
            c == '/' || c == '\\' || c == ':' || c == '*' || c == '?' || c == '"' || c == '<' || c
                == '>' || c == '|'
        }
}

/// Whether a name holds a character Windows does not allow in file names.
fn forbidden_char(s: &Vec<char>) -> (r: bool)
    ensures
        r == has_forbidden_char(s@),
{
    let mut i: usize = 0;
    while i < s.len()
        invariant
            i <= s@.len(),
            forall|j: int| 0 <= j < i ==> !{
                let c = #[trigger] s@[j];
                c == '/' || c == '\\' || c == ':' || c == '*' || c == '?' || c == '"' || c == '<'
                    || c == '>' || c == '|'
            },
        decreases s@.len() - i,
    {
        let c = s[i];
        if c == '/' || c == '\\' || c == ':' || c == '*' || c == '?' || c == '"' || c == '<' || c
            == '>' || c == '|' {
            return true;
        }
        i = i + 1;
    }
    false
}

/// The name a resource gets when renamed: the trimmed new name, with the old extension
/// added back when a file is renamed to a name without one.
pub open spec fn renamed_name(new_name: Seq<char>, is_file: bool, old_extension: Option<Seq<char>>) -> Result<
    Seq<char>,
    Seq<char>,
> {
    let name = trimmed(new_name);
    if name.len() == 0 || has_forbidden_char(name) {
        Err("资源新名称为空或包含Windows非法字符"@)
    } else if is_file && plain_name_extension(name) is None {
        match old_extension {
            Some(e) => Ok(name + "."@ + e),
            None => Ok(name),
        }
    } else {
        Ok(name)
    }
}

/// Checks a new resource name and computes the final name: a name that is blank or holds
/// a character Windows forbids is refused, and a file renamed without an extension keeps
/// its old one.
pub fn rename_target_name(new_name: &str, is_file: bool, old_extension: Option<&str>) -> (r: Result<
    String,
    String,
>)
    ensures
        match r {
            Ok(name) => renamed_name(
                new_name@,
                is_file,
                match old_extension {
                    Some(e) => Some(e@),
                    None => None,
                },
            ) == Ok::<Seq<char>, Seq<char>>(name@),
            Err(message) => renamed_name(
                new_name@,
                is_file,
                match old_extension {
                    Some(e) => Some(e@),
                    None => None,
                },
            ) == Err::<Seq<char>, Seq<char>>(message@),
        },
{
    let name = trim_str(new_name);
    if name.len() == 0 || forbidden_char(&name) {
        return Err(string_from_chars(&chars_of("资源新名称为空或包含Windows非法字符")));
    }
    if is_file && extension_of_name(&name).is_none() {
        match old_extension {
            Some(e) => {
                let mut v = name;
                append_str(&mut v, ".");
                append_str(&mut v, e);
                Ok(string_from_chars(&v))
            },
            None => Ok(string_from_chars(&name)),
        }
    } else {
        Ok(string_from_chars(&name))
    }
}

/// The name tried when a file name is taken: `stem_number.extension`.
pub fn numbered_file_name(stem: &str, extension: &str, number: u64) -> (r: String)
    ensures
        r@ == stem@ + "_"@ + crate::text::decimal(number as nat) + "."@ + extension@,
{
    let mut v = chars_of(stem);
    append_str(&mut v, "_");
    crate::text::append_decimal(&mut v, number);
    append_str(&mut v, ".");
    append_str(&mut v, extension);
    string_from_chars(&v)
}

/// A number in decimal, padded with leading zeros to at least `width` digits.
pub open spec fn zero_padded(n: nat, width: nat) -> Seq<char> {
    let digits = crate::text::decimal(n);
    if digits.len() < width {
        Seq::new((width - digits.len()) as nat, |_i: int| '0') + digits
    } else {
        digits
    }
}

/// The name the batch rename gives a file: `base_NNN.extension`.
pub open spec fn batch_name(base: Seq<char>, number: nat, extension: Seq<char>) -> Seq<char> {
    base + "_"@ + zero_padded(number, 3) + "."@ + extension
}

/// Checks the base name of a batch rename: it is trimmed, and a blank one is refused.
pub fn batch_base_name(batch_name: &str) -> (r: Result<String, String>)
    ensures
        match r {
            Ok(base) => !is_blank(batch_name@) && base@ == trimmed(batch_name@),
            Err(message) => is_blank(batch_name@) && message@
                == "Slide2D Assistant Toolkit: empty batch name"@,
        },
{
    let base = trim_str(batch_name);
    proof {
        crate::text::lemma_trimmed_empty(batch_name@);
    }
    if base.len() == 0 {
        return Err(string_from_chars(&chars_of("Slide2D Assistant Toolkit: empty batch name")));
    }
    Ok(string_from_chars(&base))
}

/// Names the `number`-th file of a batch rename, its number written with at least three
/// digits.
pub fn batch_file_name(base: &str, number: u64, extension: &str) -> (r: String)
    ensures
        r@ == batch_name(base@, number as nat, extension@),
{
    let mut digits: Vec<char> = Vec::new();
    crate::text::append_decimal(&mut digits, number);
    assert(digits@ =~= crate::text::decimal(number as nat));
    let mut v = chars_of(base);
    append_str(&mut v, "_");
    let ghost before = v@;
    let mut k: usize = digits.len();
    while k < 3
        invariant
            digits.len() <= k <= 3 || (digits.len() >= 3 && k == digits.len()),
            v@ == before + Seq::new((k - digits@.len()) as nat, |_i: int| '0'),
        decreases 3 - k,
    {
        v.push('0');
        proof {
            assert(v@ =~= before + Seq::new((k + 1 - digits@.len()) as nat, |_i: int| '0'));
        }
        k = k + 1;
    }
    let ghost padded = v@;
    let mut i: usize = 0;
    while i < digits.len()
        invariant
            i <= digits@.len(),
            v@ == padded + digits@.take(i as int),
        decreases digits@.len() - i,
    {
        v.push(digits[i]);
        proof {
            assert(digits@.take(i as int + 1) =~= digits@.take(i as int).push(digits@[i as int]));
        }
        i = i + 1;
    }
    append_str(&mut v, ".");
    append_str(&mut v, extension);
    proof {
        assert(digits@.take(digits@.len() as int) =~= digits@);
        let d = crate::text::decimal(number as nat);
        if d.len() < 3 {
            assert(v@ =~= base@ + "_"@ + (Seq::new((3 - d.len()) as nat, |_i: int| '0') + d) + "."@
                + extension@);
        } else {
            assert(Seq::new((k - digits@.len()) as nat, |_i: int| '0') =~= Seq::<char>::empty());
            assert(v@ =~= base@ + "_"@ + d + "."@ + extension@);
        }
    }
    string_from_chars(&v)
}

/// The groups of resource trees the asset panel shows.
#[derive(Clone, Copy, PartialEq, Eq, Structural, Debug)]
pub enum AssetGroup {
    Actors,
    Images,
    Audio,
    Animations,
    Tilesets,
    Ui,
    Blueprints,
}

/// The project's resource folders and the asset panel's state.
pub struct AssetLibrary {
    /// The `Content` resource root.
    pub content_root: String,
    /// The old `assets` root, scanned for older projects only.
    pub root: String,
    pub new_folder_name: String,
    pub new_folder_category: AssetCategory,
    /// Where a new folder is created, once chosen from any expanded folder.
    pub new_folder_parent: Option<String>,
    /// The resource the rename window works on.
    pub rename_target: Option<String>,
    /// The new name typed in the rename window.
    pub rename_text: String,
    /// Whether new PNG files are recompressed on import.
    pub automatic_image_compression: bool,
    /// The cached resource trees.
    pub actor_entries: Vec<AssetEntry>,
    pub image_entries: Vec<AssetEntry>,
    pub audio_entries: Vec<AssetEntry>,
    pub animation_entries: Vec<AssetEntry>,
    pub tileset_entries: Vec<AssetEntry>,
    pub ui_entries: Vec<AssetEntry>,
    pub blueprint_entries: Vec<AssetEntry>,
    /// When the trees were last scanned, in host milliseconds.
    pub last_scan_ms: u64,
}

/// The folders below `Content` created for every project.
pub open spec fn content_folders() -> Seq<Seq<char>> {
    seq![
        "Actor"@,
        "Blueprint"@,
        "Animation"@,
        "Assets/Textures"@,
        "Assets/Audio"@,
        "Assets/TileSets"@,
        "Assets/UI"@,
    ]
}

/// The folders below the old `assets` root created for every project.
pub open spec fn legacy_folders() -> Seq<Seq<char>> {
    seq!["images"@, "audio"@, "animations"@, "tilesets"@]
}

impl AssetLibrary {
    /// The cached tree of a group.
    pub open spec fn entries_of(&self, group: AssetGroup) -> Seq<AssetEntry> {
        match group {
            AssetGroup::Actors => self.actor_entries@,
            AssetGroup::Images => self.image_entries@,
            AssetGroup::Audio => self.audio_entries@,
            AssetGroup::Animations => self.animation_entries@,
            AssetGroup::Tilesets => self.tileset_entries@,
            AssetGroup::Ui => self.ui_entries@,
            AssetGroup::Blueprints => self.blueprint_entries@,
        }
    }

    /// When the trees were last scanned, in host milliseconds.
    pub open spec fn last_scan(&self) -> u64 {
        self.last_scan_ms
    }

    /// A library for a project folder with empty trees, scanned at `now_ms`: `Content` and
    /// the old `assets` below the project, no folder or rename in progress, and image
    /// compression on. The host creates its folders and scans them.
    pub fn for_project(project_root: &str, now_ms: u64) -> (r: Self)
        ensures
            r.content_root@ == joined(project_root@, "Content"@),
            r.root@ == joined(project_root@, "assets"@),
            r.new_folder_name@.len() == 0,
            r.new_folder_category == AssetCategory::Actor,
            r.new_folder_parent is None,
            r.rename_target is None,
            r.rename_text@.len() == 0,
            r.automatic_image_compression,
            forall|g: AssetGroup| #[trigger] r.entries_of(g).len() == 0,
            r.last_scan() == now_ms,
    {
        AssetLibrary {
            content_root: join_path(project_root, "Content"),
            root: join_path(project_root, "assets"),
            new_folder_name: String::new(),
            new_folder_category: AssetCategory::Actor,
            new_folder_parent: None,
            rename_target: None,
            rename_text: String::new(),
            automatic_image_compression: true,
            actor_entries: Vec::new(),
            image_entries: Vec::new(),
            audio_entries: Vec::new(),
            animation_entries: Vec::new(),
            tileset_entries: Vec::new(),
            ui_entries: Vec::new(),
            blueprint_entries: Vec::new(),
            last_scan_ms: now_ms,
        }
    }

    /// The folders every project has: those below `Content`, then those below `assets`.
    pub fn required_folders(&self) -> (r: Vec<String>)
        ensures
            r@.len() == content_folders().len() + legacy_folders().len(),
            forall|i: int|
                0 <= i < content_folders().len() ==> (#[trigger] r@[i])@ == joined(
                    self.content_root@,
                    content_folders()[i],
                ),
            forall|i: int|
                0 <= i < legacy_folders().len() ==> (#[trigger] r@[content_folders().len() + i])@
                    == joined(self.root@, legacy_folders()[i]),
    {
        let c = self.content_root.as_str();
        let a = self.root.as_str();
        let mut r: Vec<String> = Vec::new();
        r.push(join_path(c, "Actor"));
        r.push(join_path(c, "Blueprint"));
        r.push(join_path(c, "Animation"));
        r.push(join_path(c, "Assets/Textures"));
        r.push(join_path(c, "Assets/Audio"));
        r.push(join_path(c, "Assets/TileSets"));
        r.push(join_path(c, "Assets/UI"));
        r.push(join_path(a, "images"));
        r.push(join_path(a, "audio"));
        r.push(join_path(a, "animations"));
        r.push(join_path(a, "tilesets"));
        r
    }

    /// The image root.
    pub fn image_root(&self) -> (r: String)
        ensures
            r@ == joined(self.content_root@, "Assets/Textures"@),
    {
        join_path(self.content_root.as_str(), "Assets/Textures")
    }

    /// The audio root.
    pub fn audio_root(&self) -> (r: String)
        ensures
            r@ == joined(self.content_root@, "Assets/Audio"@),
    {
        join_path(self.content_root.as_str(), "Assets/Audio")
    }

    /// The animation root.
    pub fn animation_root(&self) -> (r: String)
        ensures
            r@ == joined(self.content_root@, "Animation"@),
    {
        join_path(self.content_root.as_str(), "Animation")
    }

    /// The tileset root.
    pub fn tileset_root(&self) -> (r: String)
        ensures
            r@ == joined(self.content_root@, "Assets/TileSets"@),
    {
        join_path(self.content_root.as_str(), "Assets/TileSets")
    }

    /// The standard texture folder.
    pub fn texture_root(&self) -> (r: String)
        ensures
            r@ == joined(self.content_root@, "Assets/Textures"@),
    {
        join_path(self.content_root.as_str(), "Assets/Textures")
    }

    /// The standard UI folder.
    pub fn ui_root(&self) -> (r: String)
        ensures
            r@ == joined(self.content_root@, "Assets/UI"@),
    {
        join_path(self.content_root.as_str(), "Assets/UI")
    }

    /// The standard blueprint folder.
    pub fn blueprint_root(&self) -> (r: String)
        ensures
            r@ == joined(self.content_root@, "Blueprint"@),
    {
        join_path(self.content_root.as_str(), "Blueprint")
    }

    /// The fixed actor folder.
    pub fn actor_root(&self) -> (r: String)
        ensures
            r@ == joined(self.content_root@, "Actor"@),
    {
        join_path(self.content_root.as_str(), "Actor")
    }

    /// The cached actor tree.
    pub fn scan_actors(&self) -> (r: &[AssetEntry])
        ensures
            r@ == self.entries_of(AssetGroup::Actors),
    {
        self.actor_entries.as_slice()
    }

    /// The cached image tree.
    pub fn scan_images(&self) -> (r: &[AssetEntry])
        ensures
            r@ == self.entries_of(AssetGroup::Images),
    {
        self.image_entries.as_slice()
    }

    /// The cached audio tree.
    pub fn scan_audio(&self) -> (r: &[AssetEntry])
        ensures
            r@ == self.entries_of(AssetGroup::Audio),
    {
        self.audio_entries.as_slice()
    }

    /// The cached animation tree.
    pub fn scan_animations(&self) -> (r: &[AssetEntry])
        ensures
            r@ == self.entries_of(AssetGroup::Animations),
    {
        self.animation_entries.as_slice()
    }

    /// The cached tileset tree.
    pub fn scan_tilesets(&self) -> (r: &[AssetEntry])
        ensures
            r@ == self.entries_of(AssetGroup::Tilesets),
    {
        self.tileset_entries.as_slice()
    }

    /// The cached UI tree.
    pub fn scan_ui(&self) -> (r: &[AssetEntry])
        ensures
            r@ == self.entries_of(AssetGroup::Ui),
    {
        self.ui_entries.as_slice()
    }

    /// The cached blueprint tree.
    pub fn scan_blueprints(&self) -> (r: &[AssetEntry])
        ensures
            r@ == self.entries_of(AssetGroup::Blueprints),
    {
        self.blueprint_entries.as_slice()
    }

    /// Whether the periodic scan is due at `now_ms`: two minutes have passed since the last
    /// scan (a clock that went back counts as no time passed).
    pub fn refresh_if_due(&self, now_ms: u64) -> (r: bool)
        ensures
            r == (now_ms >= self.last_scan() && now_ms - self.last_scan() >= ASSET_SCAN_INTERVAL_MS),
    {
        now_ms >= self.last_scan_ms && now_ms - self.last_scan_ms >= ASSET_SCAN_INTERVAL_MS
    }

    /// The folders a group is scanned from, in merge order, and the file extensions it
    /// keeps.
    pub fn scan_sources(&self, group: AssetGroup) -> (r: (Vec<String>, Vec<String>))
        ensures
            (r.0@.map_values(|s: String| s@), r.1@.map_values(|s: String| s@)) == scan_plan(
                self.content_root@,
                self.root@,
                group,
            ),
    {
        let c = self.content_root.as_str();
        let a = self.root.as_str();
        let mut folders: Vec<String> = Vec::new();
        let mut extensions: Vec<String> = Vec::new();
        match group {
            AssetGroup::Actors => {
                folders.push(join_path(c, "Actor"));
                extensions.push("s2actor".to_string());
            },
            AssetGroup::Images => {
                folders.push(join_path(c, "Assets/Textures"));
                folders.push(join_path(c, "Sprites"));
                folders.push(join_path(c, "Textures"));
                folders.push(join_path(a, "images"));
                extensions.push("png".to_string());
            },
            AssetGroup::Audio => {
                folders.push(join_path(c, "Assets/Audio"));
                folders.push(join_path(c, "Audio"));
                folders.push(join_path(a, "audio"));
                extensions.push("wav".to_string());
                extensions.push("ogg".to_string());
                extensions.push("mp3".to_string());
                extensions.push("flac".to_string());
            },
            AssetGroup::Animations => {
                folders.push(join_path(c, "Animation"));
                folders.push(join_path(c, "Animations"));
                folders.push(join_path(a, "animations"));
                extensions.push("s2anim".to_string());
            },
            AssetGroup::Tilesets => {
                folders.push(join_path(c, "Assets/TileSets"));
                folders.push(join_path(c, "TileMaps"));
                folders.push(join_path(a, "tilesets"));
                extensions.push("s2tileset".to_string());
            },
            AssetGroup::Ui => {
                folders.push(join_path(c, "Assets/UI"));
                folders.push(join_path(c, "UI"));
                extensions.push("png".to_string());
            },
            AssetGroup::Blueprints => {
                folders.push(join_path(c, "Blueprint"));
                folders.push(join_path(c, "Blueprints"));
                extensions.push("json".to_string());
                extensions.push("s2blueprint".to_string());
            },
        }
        proof {
            assert(folders@.map_values(|s: String| s@) =~= scan_plan(c@, a@, group).0);
            assert(extensions@.map_values(|s: String| s@) =~= scan_plan(c@, a@, group).1);
        }
        (folders, extensions)
    }

    /// Replaces a group's tree with the merge of the trees scanned from its folders.
    pub fn store_scan(&mut self, group: AssetGroup, scanned: Vec<Vec<AssetEntry>>)
        ensures
            final(self).entries_of(group) == sort_entries(concat_lists(scanned@)),
            forall|g: AssetGroup| g != group ==> #[trigger] final(self).entries_of(g) == old(self).entries_of(g),
            final(self).last_scan() == old(self).last_scan(),
            final(self).content_root == old(self).content_root,
            final(self).root == old(self).root,
    {
        let merged = merge_scans(scanned);
        match group {
            AssetGroup::Actors => self.actor_entries = merged,
            AssetGroup::Images => self.image_entries = merged,
            AssetGroup::Audio => self.audio_entries = merged,
            AssetGroup::Animations => self.animation_entries = merged,
            AssetGroup::Tilesets => self.tileset_entries = merged,
            AssetGroup::Ui => self.ui_entries = merged,
            AssetGroup::Blueprints => self.blueprint_entries = merged,
        }
    }

    /// Records that every tree was scanned at `now_ms`.
    pub fn mark_scanned(&mut self, now_ms: u64)
        ensures
            final(self).last_scan() == now_ms,
            forall|g: AssetGroup| #[trigger] final(self).entries_of(g) == old(self).entries_of(g),
            final(self).content_root == old(self).content_root,
            final(self).root == old(self).root,
    {
        self.last_scan_ms = now_ms;
    }

    /// The folder a file of a kind is imported into.
    pub fn destination_directory(&self, kind: AssetKind) -> (r: String)
        ensures
            r@ == joined(
                self.content_root@,
                match kind {
                    AssetKind::Image => "Assets/Textures"@,
                    AssetKind::Audio => "Assets/Audio"@,
                    AssetKind::Animation => "Animation"@,
                    AssetKind::Tileset => "Assets/TileSets"@,
                },
            ),
    {
        match kind {
            AssetKind::Image => self.image_root(),
            AssetKind::Audio => self.audio_root(),
            AssetKind::Animation => self.animation_root(),
            AssetKind::Tileset => self.tileset_root(),
        }
    }

    /// The root folder of a category.
    pub fn category_root(&self, category: AssetCategory) -> (r: String)
        ensures
            r@ == joined(self.content_root@, category_folder(category)),
    {
        match category {
            AssetCategory::Actor => self.actor_root(),
            AssetCategory::Blueprint => self.blueprint_root(),
            AssetCategory::Animation => self.animation_root(),
            AssetCategory::AssetsTextures => self.texture_root(),
            AssetCategory::AssetsAudio => self.audio_root(),
            AssetCategory::AssetsTilesets => self.tileset_root(),
            AssetCategory::AssetsUi => self.ui_root(),
        }
    }

    /// Checks the new folder name and returns the folder to create: in the chosen parent,
    /// else in the root of the chosen category. A blank name or one with a character
    /// Windows forbids is refused.
    pub fn new_folder_path(&self) -> (r: Result<String, String>)
        ensures
            match r {
                Ok(path) => new_folder(self.new_folder_name@, self.new_folder_parent, joined(
                    self.content_root@,
                    category_folder(self.new_folder_category),
                )) == Ok::<Seq<char>, Seq<char>>(path@),
                Err(message) => new_folder(self.new_folder_name@, self.new_folder_parent, joined(
                    self.content_root@,
                    category_folder(self.new_folder_category),
                )) == Err::<Seq<char>, Seq<char>>(message@),
            },
    {
        let name = trim_str(self.new_folder_name.as_str());
        if name.len() == 0 {
            return Err(string_from_chars(&chars_of("文件夹名称不能为空")));
        }
        if forbidden_char(&name) {
            return Err(string_from_chars(&chars_of("文件夹名称包含Windows不允许的字符")));
        }
        let parent = match &self.new_folder_parent {
            Some(p) => p.clone(),
            None => self.category_root(self.new_folder_category),
        };
        let name_text = string_from_chars(&name);
        Ok(join_path(parent.as_str(), name_text.as_str()))
    }
}

/// The folder of a category below `Content`.
pub open spec fn category_folder(category: AssetCategory) -> Seq<char> {
    match category {
        AssetCategory::Actor => "Actor"@,
        AssetCategory::Blueprint => "Blueprint"@,
        AssetCategory::Animation => "Animation"@,
        AssetCategory::AssetsTextures => "Assets/Textures"@,
        AssetCategory::AssetsAudio => "Assets/Audio"@,
        AssetCategory::AssetsTilesets => "Assets/TileSets"@,
        AssetCategory::AssetsUi => "Assets/UI"@,
    }
}

/// The folder a new folder name asks for, or why it is refused.
pub open spec fn new_folder(name: Seq<char>, parent: Option<String>, category_root: Seq<char>) -> Result<
    Seq<char>,
    Seq<char>,
> {
    let t = trimmed(name);
    if t.len() == 0 {
        Err("文件夹名称不能为空"@)
    } else if has_forbidden_char(t) {
        Err("文件夹名称包含Windows不允许的字符"@)
    } else {
        Ok(
            joined(
                match parent {
                    Some(p) => p@,
                    None => category_root,
                },
                t,
            ),
        )
    }
}

/// The folders a group is scanned from, in merge order, and the extensions it keeps.
pub open spec fn scan_plan(content: Seq<char>, legacy: Seq<char>, group: AssetGroup) -> (
    Seq<Seq<char>>,
    Seq<Seq<char>>,
) {
    match group {
        AssetGroup::Actors => (seq![joined(content, "Actor"@)], seq!["s2actor"@]),
        AssetGroup::Images => (
            seq![
                joined(content, "Assets/Textures"@),
                joined(content, "Sprites"@),
                joined(content, "Textures"@),
                joined(legacy, "images"@),
            ],
            seq!["png"@],
        ),
        AssetGroup::Audio => (
            seq![
                joined(content, "Assets/Audio"@),
                joined(content, "Audio"@),
                joined(legacy, "audio"@),
            ],
            seq!["wav"@, "ogg"@, "mp3"@, "flac"@],
        ),
        AssetGroup::Animations => (
            seq![
                joined(content, "Animation"@),
                joined(content, "Animations"@),
                joined(legacy, "animations"@),
            ],
            seq!["s2anim"@],
        ),
        AssetGroup::Tilesets => (
            seq![
                joined(content, "Assets/TileSets"@),
                joined(content, "TileMaps"@),
                joined(legacy, "tilesets"@),
            ],
            seq!["s2tileset"@],
        ),
        AssetGroup::Ui => (seq![joined(content, "Assets/UI"@), joined(content, "UI"@)], seq!["png"@]),
        AssetGroup::Blueprints => (
            seq![joined(content, "Blueprint"@), joined(content, "Blueprints"@)],
            seq!["json"@, "s2blueprint"@],
        ),
    }
}

/// Whether entries are in name order.
pub open spec fn names_sorted(s: Seq<AssetEntry>) -> bool {
    forall|i: int, j: int|
        0 <= i < j < s.len() ==> !seq_lt(entry_name(#[trigger] s[j]), entry_name(#[trigger] s[i]))
}

proof fn lemma_insert_entry(s: Seq<AssetEntry>, e: AssetEntry)
    requires
        names_sorted(s),
    ensures
        names_sorted(insert_entry(s, e)),
        insert_entry(s, e).to_multiset() == s.to_multiset().insert(e),
    decreases s.len(),
{
    broadcast use vstd::seq_lib::group_to_multiset_ensures;

    let r = insert_entry(s, e);
    if s.len() == 0 {
        assert(seq![e] =~= Seq::<AssetEntry>::empty().push(e));
        assert(r.to_multiset() =~= s.to_multiset().insert(e));
    } else if !seq_lt(entry_name(e), entry_name(s.last())) {
        let n = s.len() - 1;
        assert forall|i: int, j: int| 0 <= i < j < r.len() implies !seq_lt(
            entry_name(#[trigger] r[j]),
            entry_name(#[trigger] r[i]),
        ) by {
            if j == s.len() {
                let si = entry_name(s[i]);
                let l = entry_name(s[n]);
                let en = entry_name(e);
                crate::text::lemma_seq_lt_total(l, en);
                if i < n {
                    assert(!seq_lt(l, si));
                    crate::text::lemma_seq_lt_transitive(l, en, si);
                } else {
                    crate::text::lemma_seq_lt_irreflexive(en);
                }
            } else {
                assert(r[i] == s[i] && r[j] == s[j]);
            }
        }
    } else {
        let d = s.drop_last();
        let l = s.last();
        lemma_insert_entry(d, e);
        let inner = insert_entry(d, e);
        assert(names_sorted(d)) by {
            assert forall|i: int, j: int| 0 <= i < j < d.len() implies !seq_lt(
                entry_name(#[trigger] d[j]),
                entry_name(#[trigger] d[i]),
            ) by {
                assert(d[i] == s[i] && d[j] == s[j]);
            }
        }
        assert(s =~= d.push(l));
        assert forall|i: int, j: int| 0 <= i < j < r.len() implies !seq_lt(
            entry_name(#[trigger] r[j]),
            entry_name(#[trigger] r[i]),
        ) by {
            if j == inner.len() {
                let x = inner[i];
                assert(inner.to_multiset().count(x) > 0);
                if x == e {
                    crate::text::lemma_seq_lt_asymmetric(entry_name(e), entry_name(l));
                } else {
                    assert(d.to_multiset().count(x) > 0);
                    assert(d.contains(x));
                    let k = choose|k: int| 0 <= k < d.len() && d[k] == x;
                    assert(s[k] == x && s[s.len() - 1] == l);
                }
            } else {
                assert(r[i] == inner[i] && r[j] == inner[j]);
            }
        }
        assert(r.to_multiset() =~= s.to_multiset().insert(e));
    }
}

/// Sorting by name puts entries in name order and keeps exactly the entries given.
pub proof fn law_sort_entries(s: Seq<AssetEntry>)
    ensures
        names_sorted(sort_entries(s)),
        sort_entries(s).to_multiset() == s.to_multiset(),
    decreases s.len(),
{
    broadcast use vstd::seq_lib::group_to_multiset_ensures;

    if s.len() > 0 {
        law_sort_entries(s.drop_last());
        lemma_insert_entry(sort_entries(s.drop_last()), s.last());
        assert(s =~= s.drop_last().push(s.last()));
        assert(sort_entries(s).to_multiset() =~= s.to_multiset());
    }
}

} // verus!
