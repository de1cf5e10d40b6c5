//! Project files: identity checks, the verification record of a project folder and its
//! checksum, file names derived from projects and scenes, and the recent project list.

use crate::paths::{
    name_extension, name_stem, path_component_count, path_extension, path_file_stem,
    path_has_parent_component, path_is_absolute, path_parent, path_with_extension, relative_path,
    single_name, slash_pieces, slash_path, last_piece, before_last_piece, piece_extension,
    parent_text, path_body, is_rooted, path_pieces, loose_path, loose_climbs, loose_last,
    loose_parent, ends_named,
};
use crate::assets::joined;
use crate::text::{
    append_decimal, append_str, chars_of, decimal, is_ascii_digit, is_ascii_letter, is_blank, str_eq,
    string_from_chars,
};
use vstd::prelude::*;

verus! {

broadcast use vstd::string::group_string_axioms;

/// The current project file format version.
pub const PROJECT_FORMAT_VERSION: u32 = 1;

/// The internal manifest file of a project folder.
pub const PROJECT_MANIFEST_NAME: &'static str = "slide2d.project.json";

/// The verification file of a project folder.
pub const PROJECT_VERIFICATION_NAME: &'static str = "slide2d.verify.json";

/// The fixed marker of verification files, which tells project folders from other folders.
pub const PROJECT_MAGIC: &'static str = "SLIDE2D_PROJECT";

/// How many recent projects are remembered.
pub const RECENT_PROJECT_LIMIT: usize = 5;

/// The verification record of a project folder.
pub struct ProjectVerification {
    pub magic: String,
    pub format_version: u32,
    pub project_file: String,
    pub file_size: u64,
    pub checksum: String,
}

/// One asset file packed into a project.
pub struct PackedAsset {
    pub relative_path: String,
    pub bytes: Vec<u8>,
}

/// A resource folder recorded in a project package, so that empty folders come back too.
pub struct PackedDirectory {
    pub relative_path: String,
}

/// Why a project's marker or version is refused, if it is.
pub open spec fn identity_error(magic: Seq<char>, format_version: u32) -> Option<Seq<char>> {
    if magic != "SLIDE2D_PROJECT"@ {
        Some("工程文件缺少有效的Slide2D引擎标识"@)
    } else if format_version != PROJECT_FORMAT_VERSION {
        Some(
            "工程格式版本"@ + decimal(format_version as nat) + "不受支持，当前版本为"@ + decimal(
                PROJECT_FORMAT_VERSION as nat,
            ),
        )
    } else {
        None
    }
}

/// Checks a project's engine marker and format version.
pub fn validate_project_identity(magic: &str, format_version: u32) -> (r: Result<(), String>)
    ensures
        match r {
            Ok(()) => identity_error(magic@, format_version) is None,
            Err(e) => identity_error(magic@, format_version) == Some(e@),
        },
{
    if !str_eq(magic, PROJECT_MAGIC) {
        return Err(string_from_chars(&chars_of("工程文件缺少有效的Slide2D引擎标识")));
    }
    if format_version != PROJECT_FORMAT_VERSION {
        let mut v = chars_of("工程格式版本");
        append_decimal(&mut v, format_version as u64);
        append_str(&mut v, "不受支持，当前版本为");
        append_decimal(&mut v, PROJECT_FORMAT_VERSION as u64);
        return Err(string_from_chars(&v));
    }
    Ok(())
}

/// The FNV-1a offset basis.
pub const FNV_OFFSET: u64 = 0xcbf29ce484222325;

/// The FNV-1a prime.
pub const FNV_PRIME: u64 = 0x100000001b3;

/// The 64-bit FNV-1a hash of bytes.
pub open spec fn fnv1a(bytes: Seq<u8>) -> u64
    decreases bytes.len(),
{
    if bytes.len() == 0 {
        FNV_OFFSET
    } else {
        (fnv1a(bytes.drop_last()) ^ (bytes.last() as u64)).wrapping_mul(FNV_PRIME)
    }
}

/// The lower-case hexadecimal digit of a number below 16.
pub open spec fn hex_char(d: int) -> char {
    if d < 10 {
        crate::text::digit_char(d)
    } else if d == 10 {
        'a'
    } else if d == 11 {
        'b'
    } else if d == 12 {
        'c'
    } else if d == 13 {
        'd'
    } else if d == 14 {
        'e'
    } else {
        'f'
    }
}

/// The last `count` hexadecimal digits of a number, most significant first.
pub open spec fn hex_digits(n: nat, count: nat) -> Seq<char>
    decreases count,
{
    if count == 0 {
        seq![]
    } else {
        hex_digits(n / 16, (count - 1) as nat).push(hex_char((n % 16) as int))
    }
}

/// The hexadecimal digit of a number below 16.
fn hex_digit(d: u64) -> (c: char)
    requires
        d < 16,
    ensures
        c == hex_char(d as int),
{
    if d < 10 {
        let digits = ['0', '1', '2', '3', '4', '5', '6', '7', '8', '9'];
        let c = digits[d as usize];
        assert(c == crate::text::digit_char(d as int));
        c
    } else if d == 10 {
        'a'
    } else if d == 11 {
        'b'
    } else if d == 12 {
        'c'
    } else if d == 13 {
        'd'
    } else if d == 14 {
        'e'
    } else {
        'f'
    }
}

/// The 64-bit FNV-1a checksum of bytes as 16 lower-case hexadecimal digits; a stable file
/// checksum that needs no extra dependency.
pub fn checksum_hex(bytes: &Vec<u8>) -> (r: String)
    ensures
        r@ == hex_digits(fnv1a(bytes@) as nat, 16),
{
    let mut checksum: u64 = FNV_OFFSET;
    let mut i: usize = 0;
    while i < bytes.len()
        invariant
            i <= bytes@.len(),
            checksum == fnv1a(bytes@.take(i as int)),
        decreases bytes@.len() - i,
    {
        assert(bytes@.take(i + 1).drop_last() =~= bytes@.take(i as int));
        checksum = (checksum ^ (bytes[i] as u64)).wrapping_mul(FNV_PRIME);
        i = i + 1;
    }
    assert(bytes@.take(i as int) =~= bytes@);
    let mut rev: Vec<char> = Vec::new();
    let mut m: u64 = checksum;
    let mut k: u64 = 16;
    while k > 0
        invariant
            k <= 16,
            hex_digits(checksum as nat, 16) == hex_digits(m as nat, k as nat) + rev@.reverse(),
        decreases k,
    {
        let c = hex_digit(m % 16);
        let ghost old_rev = rev@;
        rev.push(c);
        assert(rev@.reverse() =~= seq![c] + old_rev.reverse());
        assert(hex_digits(m as nat, k as nat) == hex_digits((m / 16) as nat, (k - 1) as nat).push(c));
        assert(hex_digits(checksum as nat, 16) =~= hex_digits((m / 16) as nat, (k - 1) as nat)
            + rev@.reverse());
        m = m / 16;
        k = k - 1;
    }
    assert(hex_digits(m as nat, 0) =~= Seq::<char>::empty());
    let mut out: Vec<char> = Vec::new();
    let mut j: usize = rev.len();
    while j > 0
        invariant
            j <= rev@.len(),
            out@ == rev@.reverse().take(rev@.len() - j),
        decreases j,
    {
        j = j - 1;
        out.push(rev[j]);
        proof {
            let n = rev@.len() - j;
            assert(rev@.reverse().take(n) =~= rev@.reverse().take(n - 1).push(rev@[j as int]));
        }
    }
    assert(rev@.reverse().take(rev@.len() as int) =~= rev@.reverse());
    assert(out@ =~= hex_digits(checksum as nat, 16));
    string_from_chars(&out)
}

/// Why a verification record is refused before its package is read, if it is, given
/// whether the platform judges its package path unsafe (absolute or with a `..`) and
/// whether it names a `.slide2d` file directly in the folder.
pub open spec fn header_error(
    v: ProjectVerification,
    path_unsafe: bool,
    root_package: bool,
) -> Option<Seq<char>> {
    if v.magic@ != "SLIDE2D_PROJECT"@ {
        Some("工程验证失败：标识不是SLIDE2D_PROJECT"@)
    } else if v.format_version != PROJECT_FORMAT_VERSION {
        Some(
            "工程验证失败：格式版本"@ + decimal(v.format_version as nat) + "不受支持，当前版本为"@
                + decimal(PROJECT_FORMAT_VERSION as nat),
        )
    } else if path_unsafe {
        Some("工程包含不安全素材路径："@ + v.project_file@)
    } else if !root_package {
        Some("工程验证失败：主工程文件必须是文件夹根目录中的.slide2d文件"@)
    } else {
        None
    }
}

/// Checks a verification record's marker, version and package path, given the platform's
/// judgement of the path.
pub fn check_verification_header(
    v: &ProjectVerification,
    path_unsafe: bool,
    root_package: bool,
) -> (r: Result<(), String>)
    ensures
        match r {
            Ok(()) => header_error(*v, path_unsafe, root_package) is None,
            Err(e) => header_error(*v, path_unsafe, root_package) == Some(e@),
        },
{
    if !str_eq(v.magic.as_str(), PROJECT_MAGIC) {
        return Err(string_from_chars(&chars_of("工程验证失败：标识不是SLIDE2D_PROJECT")));
    }
    if v.format_version != PROJECT_FORMAT_VERSION {
        let mut m = chars_of("工程验证失败：格式版本");
        append_decimal(&mut m, v.format_version as u64);
        append_str(&mut m, "不受支持，当前版本为");
        append_decimal(&mut m, PROJECT_FORMAT_VERSION as u64);
        return Err(string_from_chars(&m));
    }
    if path_unsafe {
        let mut m = chars_of("工程包含不安全素材路径：");
        append_str(&mut m, v.project_file.as_str());
        return Err(string_from_chars(&m));
    }
    if !root_package {
        return Err(string_from_chars(&chars_of("工程验证失败：主工程文件必须是文件夹根目录中的.slide2d文件")));
    }
    Ok(())
}

/// Whether the platform judges a stored relative path unsafe: absolute, or leading out of
/// its folder through `..`. A single plain name is never unsafe; a relative path of names
/// and `..` joined by `/` is unsafe exactly when one of its pieces is `..`, and so is such a
/// path with `.` pieces, repeated separators or a trailing `/`.
pub fn is_unsafe_path(value: &str) -> (r: bool)
    ensures
        single_name(value@) ==> !r,
        relative_path(value@) ==> r == exists|i: int|
            0 <= i < slash_pieces(value@).len() && #[trigger] slash_pieces(value@)[i] == ".."@,
        loose_path(value@) && !is_rooted(value@) ==> r == loose_climbs(value@),
{
    path_is_absolute(value) || path_has_parent_component(value)
}

/// Whether a path of names and `..` joined by `/` is one `.slide2d` file name directly in
/// its folder: not rooted, a single piece, with the extension `slide2d`.
pub open spec fn root_package_path(s: Seq<char>) -> bool {
    !is_rooted(s) && path_pieces(s).len() == 1 && piece_extension(s) == Some("slide2d"@)
}

/// Whether a path of names and `..` joined by `/` leads out of its folder: one of its
/// pieces is `..`.
pub open spec fn climbs_out_path(s: Seq<char>) -> bool {
    exists|i: int| 0 <= i < path_pieces(s).len() && #[trigger] path_pieces(s)[i] == ".."@
}

/// Whether the platform reads a path as one `.slide2d` file name. A single plain name is one
/// exactly when its extension is `slide2d`; a path of names and `..` joined by `/` exactly
/// when it is a single unrooted piece with that extension.
pub fn is_root_package(value: &str) -> (r: bool)
    ensures
        single_name(value@) ==> r == (name_extension(value@) == Some("slide2d"@)),
        slash_path(value@) ==> r == root_package_path(value@),
{
    proof {
        if slash_path(value@) && !is_rooted(value@) {
            crate::paths::lemma_unrooted_slash_path(value@);
        }
        crate::paths::lemma_pieces_nonempty(path_body(value@));
    }
    if path_component_count(value) != 1 {
        return false;
    }
    match path_extension(value) {
        Some(e) => str_eq(e.as_str(), "slide2d"),
        None => false,
    }
}

/// Checks a verification record before its package is read, judging its package path by
/// the platform's rules; for a package named by a single plain name, or by a relative path
/// of names and `..` joined by `/`, the outcome is exact.
pub fn verify_header(v: &ProjectVerification) -> (r: Result<(), String>)
    ensures
        relative_path(v.project_file@) ==> match r {
            Ok(()) => header_error(
                *v,
                climbs_out_path(v.project_file@),
                root_package_path(v.project_file@),
            ) is None,
            Err(e) => header_error(
                *v,
                climbs_out_path(v.project_file@),
                root_package_path(v.project_file@),
            ) == Some(e@),
        },
        exists|path_unsafe: bool, root_package: bool|
            match r {
                Ok(()) => header_error(*v, path_unsafe, root_package) is None,
                Err(e) => header_error(*v, path_unsafe, root_package) == Some(e@),
            },
        single_name(v.project_file@) ==> match r {
            Ok(()) => header_error(
                *v,
                false,
                name_extension(v.project_file@) == Some("slide2d"@),
            ) is None,
            Err(e) => header_error(
                *v,
                false,
                name_extension(v.project_file@) == Some("slide2d"@),
            ) == Some(e@),
        },
{
    proof {
        if relative_path(v.project_file@) {
            crate::paths::lemma_relative_is_slash_path(v.project_file@);
        }
    }
    let path_unsafe = is_unsafe_path(v.project_file.as_str());
    let root_package = is_root_package(v.project_file.as_str());
    check_verification_header(v, path_unsafe, root_package)
}

/// Why a package's bytes do not match its verification record, if they do not.
pub open spec fn package_error(v: ProjectVerification, bytes: Seq<u8>) -> Option<Seq<char>> {
    if bytes.len() != v.file_size {
        Some("工程验证失败：主工程文件大小不一致，文件可能已损坏"@)
    } else if hex_digits(fnv1a(bytes) as nat, 16) != v.checksum@ {
        Some("工程验证失败：主工程文件校验值不一致，文件可能已损坏"@)
    } else {
        None
    }
}

/// Checks a package's size and checksum against its verification record.
pub fn check_package(v: &ProjectVerification, bytes: &Vec<u8>) -> (r: Result<(), String>)
    ensures
        match r {
            Ok(()) => package_error(*v, bytes@) is None,
            Err(e) => package_error(*v, bytes@) == Some(e@),
        },
{
    if bytes.len() as u64 != v.file_size {
        return Err(string_from_chars(&chars_of("工程验证失败：主工程文件大小不一致，文件可能已损坏")));
    }
    let actual = checksum_hex(bytes);
    if !str_eq(actual.as_str(), v.checksum.as_str()) {
        return Err(string_from_chars(&chars_of("工程验证失败：主工程文件校验值不一致，文件可能已损坏")));
    }
    Ok(())
}

/// The verification record of a package with a name and bytes.
pub fn verification_for(package_name: &str, bytes: &Vec<u8>) -> (r: ProjectVerification)
    ensures
        r.magic@ == "SLIDE2D_PROJECT"@,
        r.format_version == PROJECT_FORMAT_VERSION,
        r.project_file@ == package_name@,
        r.file_size == bytes@.len(),
        r.checksum@ == hex_digits(fnv1a(bytes@) as nat, 16),
        package_error(r, bytes@) is None,
{
    ProjectVerification {
        magic: string_from_chars(&chars_of(PROJECT_MAGIC)),
        format_version: PROJECT_FORMAT_VERSION,
        project_file: string_from_chars(&chars_of(package_name)),
        file_size: bytes.len() as u64,
        checksum: checksum_hex(bytes),
    }
}

/// Whether a character is one Windows does not allow in file names.
pub open spec fn forbidden_in_names(c: char) -> bool {
    c == '/' || c == '\\' || c == ':' || c == '*' || c == '?' || c == '"' || c == '<' || c == '>'
        || c == '|'
}

/// A name with every character Windows forbids replaced by `_`.
pub open spec fn underscored(name: Seq<char>) -> Seq<char> {
    name.map_values(|c: char| if forbidden_in_names(c) { '_' } else { c })
}

/// The file name for a scene name: the name with forbidden characters replaced, or
/// `scene_` and the scene's one-based number when that is blank.
pub open spec fn sanitized_file_name(name: Seq<char>, index: nat) -> Seq<char> {
    if is_blank(underscored(name)) {
        "scene_"@ + decimal(index + 1)
    } else {
        underscored(name)
    }
}

/// Turns a scene name into a file name Windows accepts.
pub fn sanitize_file_name(name: &str, index: usize) -> (r: String)
    requires
        index < usize::MAX,
    ensures
        r@ == sanitized_file_name(name@, index as nat),
{
    let v = chars_of(name);
    let mut out: Vec<char> = Vec::new();
    let mut i: usize = 0;
    while i < v.len()
        invariant
            i <= v@.len(),
            v@ == name@,
            out@ == underscored(v@.take(i as int)),
        decreases v@.len() - i,
    {
        let c = v[i];
        let d = if c == '/' || c == '\\' || c == ':' || c == '*' || c == '?' || c == '"' || c
            == '<' || c == '>' || c == '|' {
            '_'
        } else {
            c
        };
        out.push(d);
        assert(out@ =~= underscored(v@.take(i + 1)));
        i = i + 1;
    }
    assert(v@.take(i as int) =~= v@);
    let text = string_from_chars(&out);
    if crate::text::str_is_blank(text.as_str()) {
        let mut m = chars_of("scene_");
        append_decimal(&mut m, (index + 1) as u64);
        string_from_chars(&m)
    } else {
        text
    }
}

/// The `.slide2d` package name of a project folder with a file name: the name made safe
/// for Windows, or `Slide2DProject` when there is no name or it is blank.
pub open spec fn package_name_for(folder_name: Option<Seq<char>>) -> Seq<char> {
    let name = match folder_name {
        Some(n) => if is_blank(n) {
            "Slide2DProject"@
        } else {
            n
        },
        None => "Slide2DProject"@,
    };
    sanitized_file_name(name, 0) + ".slide2d"@
}

/// Builds a project folder's package name from the folder's file name.
pub fn package_name(folder_name: Option<&str>) -> (r: String)
    ensures
        r@ == package_name_for(
            match folder_name {
                Some(n) => Some(n@),
                None => None,
            },
        ),
{
    let name: &str = match folder_name {
        Some(n) => if crate::text::str_is_blank(n) {
            "Slide2DProject"
        } else {
            n
        },
        None => "Slide2DProject",
    };
    let base = sanitize_file_name(name, 0);
    let mut v = chars_of(base.as_str());
    append_str(&mut v, ".slide2d");
    string_from_chars(&v)
}

/// A project file path with the `.slide2d` extension: the path itself when its last piece
/// has that extension or is `..`; else the text before the last piece, then `..` when the
/// piece's stem is `.` (a name such as `..x` loses its extension and becomes the parent
/// component, which takes none), or the piece's stem and `.slide2d`.
pub open spec fn project_path(s: Seq<char>) -> Seq<char> {
    if last_piece(s) == ".."@ || piece_extension(s) == Some("slide2d"@) {
        s
    } else if name_stem(last_piece(s)) == "."@ {
        before_last_piece(s) + ".."@
    } else {
        before_last_piece(s) + name_stem(last_piece(s)) + ".slide2d"@
    }
}

/// A project file path with the `.slide2d` extension: unchanged when it has it, else with
/// its extension replaced by the platform's rules. A single plain name without it becomes
/// its stem followed by `.slide2d` (`..` for a name whose stem is `.`, such as `..x`); a path
/// of names and `..` joined by `/` gets that done to its last piece (a last piece `..` is
/// left alone, as the platform does), also with `.` pieces or repeated separators before
/// the last piece.
pub fn ensure_project_extension(path: &str) -> (r: String)
    ensures
        single_name(path@) ==> r@ == if name_extension(path@) == Some("slide2d"@) {
            path@
        } else if name_stem(path@) == "."@ {
            ".."@
        } else {
            name_stem(path@) + "."@ + "slide2d"@
        },
        slash_path(path@) ==> r@ == project_path(path@),
        ends_named(path@) ==> r@ == project_path(path@),
{
    proof {
        if ends_named(path@) {
            crate::paths::lemma_ends_named_last(path@);
        }
    }
    match path_extension(path) {
        Some(e) => {
            if str_eq(e.as_str(), "slide2d") {
                return string_from_chars(&chars_of(path));
            }
        },
        None => {},
    }
    proof {
        reveal_strlit("slide2d");
        reveal_strlit(".slide2d");
        reveal_strlit(".");
        assert("."@ + "slide2d"@ =~= ".slide2d"@);
    }
    let r = path_with_extension(path, "slide2d");
    proof {
        let b = before_last_piece(path@);
        let st = name_stem(last_piece(path@));
        assert(b + st + "."@ + "slide2d"@ =~= b + st + ".slide2d"@);
    }
    r
}

/// The unpacking folder beside a project file: `.` followed by the file's stem and
/// `_slide2d`, in the file's parent folder (`.` without one); a file without a stem uses
/// `project`.
pub open spec fn workspace_for(parent: Option<Seq<char>>, stem: Option<Seq<char>>) -> Seq<char> {
    let p = match parent {
        Some(p) => p,
        None => "."@,
    };
    let s = match stem {
        Some(s) => s,
        None => "project"@,
    };
    joined(p, "."@ + s + "_slide2d"@)
}

/// Builds the unpacking folder from a project file's parent and stem.
pub fn workspace_folder(parent: Option<&str>, stem: Option<&str>) -> (r: String)
    ensures
        r@ == workspace_for(
            match parent {
                Some(p) => Some(p@),
                None => None,
            },
            match stem {
                Some(s) => Some(s@),
                None => None,
            },
        ),
{
    let p: &str = match parent {
        Some(p) => p,
        None => ".",
    };
    let s: &str = match stem {
        Some(s) => s,
        None => "project",
    };
    let mut name = chars_of(".");
    append_str(&mut name, s);
    append_str(&mut name, "_slide2d");
    let name_text = string_from_chars(&name);
    crate::assets::join_path(p, name_text.as_str())
}

/// The unpacking folder beside a project file, found with the platform's reading of its
/// parent and stem; for a single plain name it is `.` followed by the stem and `_slide2d`,
/// and for a path of names joined by `/` it is that name inside the path's parent (with the
/// stem `project` when the path ends in `..`, which has none); with `.` pieces, repeated
/// separators or a trailing `/` allowed, the parent and file name are the platform's
/// normalized ones.
pub fn workspace_path(path: &str) -> (r: String)
    ensures
        single_name(path@) ==> r@ == "."@ + name_stem(path@) + "_slide2d"@,
        slash_path(path@) && last_piece(path@) != ".."@ ==> r@ == workspace_for(
            Some(parent_text(path@)),
            Some(name_stem(last_piece(path@))),
        ),
        slash_path(path@) && last_piece(path@) == ".."@ ==> r@ == workspace_for(
            Some(parent_text(path@)),
            None,
        ),
        loose_path(path@) ==> r@ == workspace_for(
            Some(loose_parent(path@)),
            if loose_last(path@) == ".."@ {
                None
            } else {
                Some(name_stem(loose_last(path@)))
            },
        ),
{
    let parent = path_parent(path);
    let stem = path_file_stem(path);
    let p: Option<&str> = match &parent {
        Some(p) => Some(p.as_str()),
        None => None,
    };
    let s: Option<&str> = match &stem {
        Some(s) => Some(s.as_str()),
        None => None,
    };
    workspace_folder(p, s)
}

/// The recent projects other than a path, in order.
pub open spec fn other_projects(projects: Seq<String>, path: Seq<char>) -> Seq<Seq<char>> {
    projects.map_values(|p: String| p@).filter(|p: Seq<char>| p != path)
}

/// The recent project list after opening a project: the project first, each path once,
/// at most five entries.
pub open spec fn remembered(projects: Seq<String>, path: Seq<char>) -> Seq<Seq<char>> {
    let all = seq![path] + other_projects(projects, path);
    if all.len() > RECENT_PROJECT_LIMIT {
        all.take(RECENT_PROJECT_LIMIT as int)
    } else {
        all
    }
}

/// Moves a project to the front of the recent list, dropping its older entry and keeping
/// at most five entries.
pub fn remember_recent_project(projects: &mut Vec<String>, path: &str)
    ensures
        final(projects)@.map_values(|p: String| p@) == remembered(old(projects)@, path@),
{
    let ghost views = projects@.map_values(|p: String| p@);
    let mut kept: Vec<String> = Vec::new();
    kept.push(string_from_chars(&chars_of(path)));
    let mut i: usize = 0;
    while i < projects.len()
        invariant
            i <= projects@.len(),
            views == projects@.map_values(|p: String| p@),
            kept@.map_values(|p: String| p@) == seq![path@] + views.take(i as int).filter(
                |p: Seq<char>| p != path@,
            ),
        decreases projects@.len() - i,
    {
        proof {
            reveal(Seq::filter);
            assert(views.take(i + 1).drop_last() =~= views.take(i as int));
        }
        if !str_eq(projects[i].as_str(), path) {
            let ghost before = kept@;
            kept.push(projects[i].clone());
            assert(kept@.map_values(|p: String| p@) =~= before.map_values(|p: String| p@).push(
                views[i as int],
            ));
        }
        i = i + 1;
    }
    assert(views.take(i as int) =~= views);
    let ghost all = kept@.map_values(|p: String| p@);
    kept.truncate(RECENT_PROJECT_LIMIT);
    proof {
        if all.len() > RECENT_PROJECT_LIMIT {
            assert(kept@.map_values(|p: String| p@) =~= all.take(RECENT_PROJECT_LIMIT as int));
        } else {
            assert(kept@.map_values(|p: String| p@) =~= all);
        }
    }
    *projects = kept;
}

/// Whether a character may appear in a scene id: an ASCII letter or digit, `_` or `-`.
pub open spec fn scene_id_char(c: char) -> bool {
    is_ascii_letter(c) || is_ascii_digit(c) || c == '_' || c == '-'
}

/// Whether a scene id is usable as it is: not empty, and made of id characters only.
pub open spec fn valid_scene_id(id: Seq<char>) -> bool {
    id.len() > 0 && forall|i: int| 0 <= i < id.len() ==> scene_id_char(#[trigger] id[i])
}

/// `k` zero digits.
pub open spec fn zeros(k: nat) -> Seq<char> {
    Seq::new(k, |i: int| '0')
}

/// Digits padded with zeros on the left to at least `width` digits.
pub open spec fn padded(s: Seq<char>, width: nat) -> Seq<char> {
    if s.len() >= width {
        s
    } else {
        zeros((width - s.len()) as nat) + s
    }
}

/// The generated scene id with a number: `scene_` and the number in at least six digits.
pub open spec fn scene_candidate(n: nat) -> Seq<char> {
    "scene_"@ + padded(decimal(n), 6)
}

/// Whether `n` is the first number from `from` on whose generated id is not taken.
pub open spec fn is_first_free(used: Set<Seq<char>>, from: nat, n: nat) -> bool {
    &&& n >= from
    &&& !used.contains(scene_candidate(n))
    &&& forall|m: nat| from <= m < n ==> used.contains(#[trigger] scene_candidate(m))
}

/// The first number from `from` on whose generated id is not taken.
pub open spec fn first_free(used: Set<Seq<char>>, from: nat) -> nat {
    choose|n: nat| is_first_free(used, from, n)
}

/// Scene id migration over a run of ids: the ids given to the scenes, the ids taken and
/// the next number to try. A valid id not taken yet is kept; any other scene gets the
/// first generated id not taken.
pub open spec fn migration(ids: Seq<Seq<char>>) -> (Seq<Seq<char>>, Set<Seq<char>>, nat)
    decreases ids.len(),
{
    if ids.len() == 0 {
        (seq![], Set::empty(), 1)
    } else {
        let (out, used, next) = migration(ids.drop_last());
        let id = ids.last();
        if valid_scene_id(id) && !used.contains(id) {
            (out.push(id), used.insert(id), next)
        } else {
            let n = first_free(used, next);
            (out.push(scene_candidate(n)), used.insert(scene_candidate(n)), n + 1)
        }
    }
}

/// The number a string of decimal digits spells.
pub open spec fn digits_value(s: Seq<char>) -> int
    decreases s.len(),
{
    if s.len() == 0 {
        0
    } else {
        digits_value(s.drop_last()) * 10 + digit_value(s.last())
    }
}

/// The value of a decimal digit character.
pub open spec fn digit_value(c: char) -> int {
    if c == '1' {
        1
    } else if c == '2' {
        2
    } else if c == '3' {
        3
    } else if c == '4' {
        4
    } else if c == '5' {
        5
    } else if c == '6' {
        6
    } else if c == '7' {
        7
    } else if c == '8' {
        8
    } else if c == '9' {
        9
    } else {
        0
    }
}

proof fn lemma_digit_value(d: int)
    requires
        0 <= d < 10,
    ensures
        digit_value(crate::text::digit_char(d)) == d,
{
}

proof fn lemma_decimal_value(n: nat)
    ensures
        digits_value(decimal(n)) == n,
    decreases n,
{
    if n < 10 {
        let s = decimal(n);
        assert(s.drop_last() =~= Seq::<char>::empty());
        assert(digits_value(s.drop_last()) == 0);
        lemma_digit_value(n as int);
        assert(s.last() == crate::text::digit_char(n as int));
    } else {
        let s = decimal(n);
        lemma_decimal_value(n / 10);
        assert(s.drop_last() =~= decimal(n / 10));
        lemma_digit_value((n % 10) as int);
        assert(s.last() == crate::text::digit_char((n % 10) as int));
        assert((n / 10) * 10 + n % 10 == n);
    }
}

proof fn lemma_zeros_value(k: nat, s: Seq<char>)
    ensures
        digits_value(zeros(k) + s) == digits_value(s),
    decreases s.len(), k,
{
    if s.len() == 0 {
        assert(zeros(k) + s =~= zeros(k));
        if k > 0 {
            assert(zeros(k).drop_last() =~= zeros((k - 1) as nat));
            lemma_zeros_value((k - 1) as nat, s);
            assert(zeros((k - 1) as nat) + s =~= zeros((k - 1) as nat));
        }
    } else {
        assert((zeros(k) + s).drop_last() =~= zeros(k) + s.drop_last());
        lemma_zeros_value(k, s.drop_last());
    }
}

/// Different numbers give different generated ids.
proof fn lemma_candidate_injective(a: nat, b: nat)
    ensures
        scene_candidate(a) == scene_candidate(b) ==> a == b,
{
    if scene_candidate(a) == scene_candidate(b) {
        reveal_strlit("scene_");
        let pa = padded(decimal(a), 6);
        let pb = padded(decimal(b), 6);
        assert(scene_candidate(a).subrange(6, scene_candidate(a).len() as int) =~= pa);
        assert(scene_candidate(b).subrange(6, scene_candidate(b).len() as int) =~= pb);
        lemma_decimal_value(a);
        lemma_decimal_value(b);
        if decimal(a).len() < 6 {
            lemma_zeros_value((6 - decimal(a).len()) as nat, decimal(a));
        }
        if decimal(b).len() < 6 {
            lemma_zeros_value((6 - decimal(b).len()) as nat, decimal(b));
        }
    }
}

/// The generated ids of the numbers from 1 below `k`.
spec fn candidates_below(k: nat) -> Set<Seq<char>>
    decreases k,
{
    if k <= 1 {
        Set::empty()
    } else {
        candidates_below((k - 1) as nat).insert(scene_candidate((k - 1) as nat))
    }
}

proof fn lemma_candidates_below(k: nat)
    ensures
        candidates_below(k).finite(),
        k >= 1 ==> candidates_below(k).len() == k - 1,
        forall|x: Seq<char>|
            candidates_below(k).contains(x) ==> exists|m: nat| 1 <= m < k && x == scene_candidate(m),
    decreases k,
{
    if k > 1 {
        lemma_candidates_below((k - 1) as nat);
        let c = scene_candidate((k - 1) as nat);
        if candidates_below((k - 1) as nat).contains(c) {
            let m = choose|m: nat| 1 <= m < k - 1 && c == scene_candidate(m);
            lemma_candidate_injective(m, (k - 1) as nat);
        }
    }
}

/// When the generated ids of 1 up to `next` are all taken, at least that many ids are.
proof fn lemma_taken_bound(used: Set<Seq<char>>, next: nat)
    requires
        used.finite(),
        next >= 1,
        forall|m: nat| 1 <= m < next ==> used.contains(#[trigger] scene_candidate(m)),
    ensures
        next - 1 <= used.len(),
{
    lemma_candidates_below(next);
    assert(candidates_below(next).subset_of(used)) by {
        assert forall|x: Seq<char>| candidates_below(next).contains(x) implies used.contains(x) by {
            let m = choose|m: nat| 1 <= m < next && x == scene_candidate(m);
        }
    }
    vstd::set_lib::lemma_len_subset(candidates_below(next), used);
}

/// Whether a scene id is usable as it is.
fn scene_id_is_valid(id: &str) -> (r: bool)
    ensures
        r == valid_scene_id(id@),
{
    let v = chars_of(id);
    if v.len() == 0 {
        return false;
    }
    let mut i: usize = 0;
    while i < v.len()
        invariant
            i <= v@.len(),
            v@ == id@,
            forall|j: int| 0 <= j < i ==> scene_id_char(#[trigger] v@[j]),
        decreases v@.len() - i,
    {
        let c = v[i];
        if !(('a' <= c && c <= 'z') || ('A' <= c && c <= 'Z') || ('0' <= c && c <= '9') || c == '_'
            || c == '-') {
            assert(!scene_id_char(v@[i as int]));
            return false;
        }
        i = i + 1;
    }
    true
}

/// The generated scene id with a number.
fn candidate_id(n: u64) -> (r: String)
    ensures
        r@ == scene_candidate(n as nat),
{
    let mut digits: Vec<char> = Vec::new();
    append_decimal(&mut digits, n);
    assert(digits@ =~= decimal(n as nat));
    let mut v = chars_of("scene_");
    if digits.len() < 6 {
        let pad = 6 - digits.len();
        let mut k: usize = 0;
        let ghost start = v@;
        while k < pad
            invariant
                k <= pad,
                v@ == start + zeros(k as nat),
            decreases pad - k,
        {
            v.push('0');
            assert(zeros((k + 1) as nat) =~= zeros(k as nat).push('0'));
            k = k + 1;
        }
    }
    crate::text::append_chars(&mut v, &digits);
    assert(v@ =~= scene_candidate(n as nat));
    string_from_chars(&v)
}

/// Whether a list of ids holds an id.
fn holds_id(used: &Vec<String>, id: &str) -> (r: bool)
    ensures
        r == used@.map_values(|s: String| s@).contains(id@),
{
    let ghost views = used@.map_values(|s: String| s@);
    let mut i: usize = 0;
    while i < used.len()
        invariant
            i <= used@.len(),
            views == used@.map_values(|s: String| s@),
            forall|j: int| 0 <= j < i ==> views[j] != id@,
        decreases used@.len() - i,
    {
        if str_eq(used[i].as_str(), id) {
            assert(views[i as int] == id@);
            return true;
        }
        i = i + 1;
    }
    false
}

/// Gives every scene whose id is empty, repeated or not made of ASCII letters, digits,
/// `_` and `-` the first free generated id `scene_000001`, `scene_000002`, ..., so that
/// the ids are distinct and usable as file names.
pub fn migrate_scene_ids(ids: &mut Vec<String>)
    requires
        old(ids)@.len() < u64::MAX,
    ensures
        final(ids)@.map_values(|s: String| s@) == migration(
            old(ids)@.map_values(|s: String| s@),
        ).0,
{
    let ghost input = ids@.map_values(|s: String| s@);
    let mut used: Vec<String> = Vec::new();
    let mut next: u64 = 1;
    let mut i: usize = 0;
    assert(input.take(0) =~= Seq::<Seq<char>>::empty());
    assert(used@.map_values(|s: String| s@).to_set() =~= Set::<Seq<char>>::empty());
    while i < ids.len()
        invariant
            i <= ids@.len(),
            ids@.len() == input.len(),
            input.len() < u64::MAX,
            forall|j: int| i <= j < input.len() ==> (#[trigger] ids@[j])@ == input[j],
            forall|j: int| 0 <= j < i ==> (#[trigger] ids@[j])@ == migration(input.take(i as int)).0[j],
            migration(input.take(i as int)).0.len() == i,
            used@.map_values(|s: String| s@).to_set() == migration(input.take(i as int)).1,
            next == migration(input.take(i as int)).2,
            used@.len() <= i,
            1 <= next <= i + 1,
            forall|m: nat|
                1 <= m < next ==> migration(input.take(i as int)).1.contains(
                    #[trigger] scene_candidate(m),
                ),
        decreases ids@.len() - i,
    {
        let ghost prefix = input.take(i as int);
        let ghost state = migration(prefix);
        let ghost views = used@.map_values(|s: String| s@);
        proof {
            assert(input.take(i + 1).drop_last() =~= prefix);
            assert(input.take(i + 1).last() == input[i as int]);
            vstd::seq_lib::seq_to_set_is_finite(views);
            views.lemma_cardinality_of_set();
        }
        let id_valid = scene_id_is_valid(ids[i].as_str());
        let taken = holds_id(&used, ids[i].as_str());
        proof {
            assert(views.contains(input[i as int]) == views.to_set().contains(input[i as int]));
        }
        if id_valid && !taken {
            let id = ids[i].clone();
            used.push(id);
            proof {
                assert(used@.map_values(|s: String| s@) =~= views.push(input[i as int]));
                views.lemma_push_to_set_commute(input[i as int]);
                assert(migration(input.take(i + 1)) == (
                    state.0.push(input[i as int]),
                    state.1.insert(input[i as int]),
                    state.2,
                ));
                assert forall|j: int| 0 <= j < i + 1 implies (#[trigger] ids@[j])@ == migration(
                    input.take(i + 1),
                ).0[j] by {}
            }
        } else {
            let ghost from = next as nat;
            let ghost before_ids = ids@;
            loop
                invariant_except_break
                    1 <= from <= next <= i + 1,
                    from == state.2,
                    i < ids@.len(),
                    ids@.len() < u64::MAX,
                    ids@ == before_ids,
                    views == used@.map_values(|s: String| s@),
                    views.to_set() == state.1,
                    state.1.finite(),
                    state.1.len() <= i,
                    forall|m: nat| 1 <= m < next ==> state.1.contains(#[trigger] scene_candidate(m)),
                    forall|m: nat| from <= m < next ==> state.1.contains(#[trigger] scene_candidate(m)),
                ensures
                    1 <= next <= i + 2,
                    is_first_free(state.1, from, (next - 1) as nat),
                    (next - 1) as nat == first_free(state.1, from),
                    used@.map_values(|s: String| s@) == views.push(scene_candidate((next - 1) as nat)),
                    ids@.len() == before_ids.len(),
                    ids@[i as int]@ == scene_candidate((next - 1) as nat),
                    forall|j: int| 0 <= j < before_ids.len() && j != i ==> ids@[j] == before_ids[j],
                decreases i + 1 - next,
            {
                proof {
                    lemma_taken_bound(state.1, next as nat);
                }
                let candidate = candidate_id(next);
                next = next + 1;
                if !holds_id(&used, candidate.as_str()) {
                    proof {
                        let n = (next - 1) as nat;
                        assert(!views.to_set().contains(scene_candidate(n)));
                        assert(is_first_free(state.1, from, n));
                        let c = first_free(state.1, from);
                        assert(is_first_free(state.1, from, c));
                        if c < n {
                            assert(state.1.contains(scene_candidate(c)));
                        }
                        if n < c {
                            assert(state.1.contains(scene_candidate(n)));
                        }
                    }
                    let ghost before_used = used@;
                    used.push(candidate.clone());
                    assert(used@.map_values(|s: String| s@) =~= views.push(candidate@));
                    ids.set(i, candidate);
                    break;
                }
                proof {
                    assert(views.contains(scene_candidate((next - 1) as nat)));
                    assert(state.1.contains(scene_candidate((next - 1) as nat)));
                    lemma_taken_bound(state.1, next as nat);
                }
            }
            proof {
                let n = (next - 1) as nat;
                let x = scene_candidate(n);
                views.lemma_push_to_set_commute(x);
                assert(migration(input.take(i + 1)) == (state.0.push(x), state.1.insert(x), n + 1));
                assert forall|j: int| 0 <= j < i + 1 implies (#[trigger] ids@[j])@ == migration(
                    input.take(i + 1),
                ).0[j] by {
                    if j < i {
                        assert(ids@[j] == before_ids[j]);
                    }
                }
                assert forall|j: int| i + 1 <= j < input.len() implies (#[trigger] ids@[j])@
                    == input[j] by {
                    assert(ids@[j] == before_ids[j]);
                }
                assert forall|m: nat| 1 <= m < next implies migration(input.take(i + 1)).1.contains(
                    #[trigger] scene_candidate(m),
                ) by {
                    if m < n {
                        if m < from {
                            assert(state.1.contains(scene_candidate(m)));
                        } else {
                            assert(state.1.contains(scene_candidate(m)));
                        }
                    }
                }
            }
        }
        i = i + 1;
    }
    assert(input.take(i as int) =~= input);
    assert(ids@.map_values(|s: String| s@) =~= migration(input).0);
}

/// Checks a path stored in a project package, refusing a path the platform judges unsafe
/// (absolute, or leading out through `..`); a single plain name is always accepted.
pub fn safe_relative_path(value: &str) -> (r: Result<String, String>)
    ensures
        match r {
            Ok(p) => p@ == value@,
            Err(e) => e@ == "工程包含不安全素材路径："@ + value@,
        },
        single_name(value@) ==> r is Ok,
{
    if is_unsafe_path(value) {
        let mut m = chars_of("工程包含不安全素材路径：");
        append_str(&mut m, value);
        return Err(string_from_chars(&m));
    }
    Ok(string_from_chars(&chars_of(value)))
}

/// What a project file's root object holds in place of `format_version` when it has no
/// engine marker.
pub enum LegacyVersion {
    /// No `format_version` field.
    Missing,
    /// A `format_version` that is an unsigned integer.
    Integer(u64),
    /// A `format_version` of another kind.
    Other,
}

/// Whether a project file needs the version 0 migration (marker and version added), or
/// why it is refused: only files without a marker whose version is missing or 0 migrate.
pub open spec fn legacy_decision(has_marker: bool, version: LegacyVersion) -> Result<bool, Seq<char>> {
    if has_marker {
        Ok(false)
    } else {
        match version {
            LegacyVersion::Missing => Ok(true),
            LegacyVersion::Integer(v) => if v == 0 {
                Ok(true)
            } else {
                Err("缺少Slide2D标识的工程仅允许使用legacy version 0"@)
            },
            LegacyVersion::Other => Err("legacy工程格式版本必须是整数0"@),
        }
    }
}

/// Decides whether a project file is read strictly or migrated from legacy version 0.
pub fn legacy_migration(has_marker: bool, version: LegacyVersion) -> (r: Result<bool, String>)
    ensures
        match r {
            Ok(b) => legacy_decision(has_marker, version) == Ok::<bool, Seq<char>>(b),
            Err(e) => legacy_decision(has_marker, version) == Err::<bool, Seq<char>>(e@),
        },
{
    if has_marker {
        return Ok(false);
    }
    match version {
        LegacyVersion::Missing => Ok(true),
        LegacyVersion::Integer(v) => if v == 0 {
            Ok(true)
        } else {
            Err(string_from_chars(&chars_of("缺少Slide2D标识的工程仅允许使用legacy version 0")))
        },
        LegacyVersion::Other => Err(string_from_chars(&chars_of("legacy工程格式版本必须是整数0"))),
    }
}

/// The fixed marker of the recent project history.
pub const RECENT_PROJECTS_MAGIC: &'static str = "SLIDE2D_RECENT_PROJECTS";

/// The recent projects kept from a history file: none when its marker is wrong, else the
/// first five of its folders that still exist.
pub open spec fn recent_from_history(
    magic: Seq<char>,
    projects: Seq<String>,
    exists: Seq<bool>,
) -> Seq<Seq<char>>
    decreases projects.len(),
{
    if magic != "SLIDE2D_RECENT_PROJECTS"@ || projects.len() == 0 {
        seq![]
    } else {
        let before = recent_from_history(magic, projects.drop_last(), exists);
        let i = projects.len() - 1;
        if exists[i] && before.len() < RECENT_PROJECT_LIMIT {
            before.push(projects[i]@)
        } else {
            before
        }
    }
}

/// Reads the recent project list from a history file's marker and folders, given which
/// folders still exist.
pub fn recent_projects(magic: &str, projects: &Vec<String>, exists: &Vec<bool>) -> (r: Vec<String>)
    requires
        exists@.len() == projects@.len(),
    ensures
        r@.map_values(|p: String| p@) == recent_from_history(magic@, projects@, exists@),
{
    let mut r: Vec<String> = Vec::new();
    if !str_eq(magic, RECENT_PROJECTS_MAGIC) {
        assert(r@.map_values(|p: String| p@) =~= recent_from_history(magic@, projects@, exists@));
        return r;
    }
    let mut i: usize = 0;
    assert(r@.map_values(|p: String| p@) =~= recent_from_history(magic@, projects@.take(0), exists@));
    while i < projects.len()
        invariant
            i <= projects@.len(),
            exists@.len() == projects@.len(),
            magic@ == "SLIDE2D_RECENT_PROJECTS"@,
            r@.map_values(|p: String| p@) == recent_from_history(
                magic@,
                projects@.take(i as int),
                exists@,
            ),
        decreases projects@.len() - i,
    {
        let ghost t = projects@.take(i + 1);
        proof {
            assert(t.drop_last() =~= projects@.take(i as int));
            assert(t[i as int] == projects@[i as int]);
        }
        if exists[i] && r.len() < RECENT_PROJECT_LIMIT {
            let ghost before = r@;
            r.push(projects[i].clone());
            assert(r@.map_values(|p: String| p@) =~= before.map_values(|p: String| p@).push(
                projects@[i as int]@,
            ));
        }
        i = i + 1;
    }
    assert(projects@.take(i as int) =~= projects@);
    r
}

/// The decimal digits of a number are ASCII digits.
proof fn lemma_decimal_digits(n: nat)
    ensures
        forall|i: int| 0 <= i < decimal(n).len() ==> is_ascii_digit(#[trigger] decimal(n)[i]),
        decimal(n).len() >= 1,
    decreases n,
{
    if n >= 10 {
        lemma_decimal_digits(n / 10);
        let d = decimal(n / 10);
        assert forall|i: int| 0 <= i < decimal(n).len() implies is_ascii_digit(#[trigger] decimal(n)[i]) by {
            if i < d.len() {
                assert(decimal(n)[i] == d[i]);
            }
        }
    }
}

/// Every generated id is a valid scene id.
proof fn lemma_candidate_valid(n: nat)
    ensures
        valid_scene_id(scene_candidate(n)),
{
    reveal_strlit("scene_");
    lemma_decimal_digits(n);
    let d = decimal(n);
    let p = padded(d, 6);
    let c = scene_candidate(n);
    assert forall|i: int| 0 <= i < c.len() implies scene_id_char(#[trigger] c[i]) by {
        if i >= 6 {
            let k = i - 6;
            if d.len() >= 6 {
                assert(c[i] == d[k]);
            } else {
                let z = (6 - d.len()) as nat;
                if k < z {
                    assert(c[i] == zeros(z)[k]);
                } else {
                    assert(c[i] == d[k - z]);
                }
            }
        }
    }
}

/// From a number whose generated id is free, some first free number exists.
proof fn lemma_first_free_exists(used: Set<Seq<char>>, from: nat, n: nat)
    requires
        n >= from,
        !used.contains(scene_candidate(n)),
    ensures
        exists|m: nat| is_first_free(used, from, m),
    decreases n - from,
{
    if forall|m: nat| from <= m < n ==> used.contains(#[trigger] scene_candidate(m)) {
        assert(is_first_free(used, from, n));
    } else {
        let m = choose|m: nat| from <= m < n && !used.contains(#[trigger] scene_candidate(m));
        lemma_first_free_exists(used, from, m);
    }
}

/// The generated ids from `from` below `to`.
spec fn candidates_between(from: nat, to: nat) -> Set<Seq<char>>
    decreases to,
{
    if to <= from {
        Set::empty()
    } else {
        candidates_between(from, (to - 1) as nat).insert(scene_candidate((to - 1) as nat))
    }
}

proof fn lemma_candidates_between(from: nat, to: nat)
    ensures
        candidates_between(from, to).finite(),
        to >= from ==> candidates_between(from, to).len() == to - from,
        forall|x: Seq<char>|
            candidates_between(from, to).contains(x) ==> exists|m: nat|
                from <= m < to && x == scene_candidate(m),
    decreases to,
{
    if to > from {
        lemma_candidates_between(from, (to - 1) as nat);
        let c = scene_candidate((to - 1) as nat);
        if candidates_between(from, (to - 1) as nat).contains(c) {
            let m = choose|m: nat| from <= m < to - 1 && c == scene_candidate(m);
            lemma_candidate_injective(m, (to - 1) as nat);
        }
    }
}

/// A finite set of ids leaves some generated id from any number on free.
proof fn lemma_some_candidate_free(used: Set<Seq<char>>, from: nat)
    requires
        used.finite(),
    ensures
        exists|m: nat| is_first_free(used, from, m),
{
    let to = from + used.len() + 1;
    lemma_candidates_between(from, to);
    if forall|m: nat| from <= m < to ==> used.contains(#[trigger] scene_candidate(m)) {
        assert(candidates_between(from, to).subset_of(used)) by {
            assert forall|x: Seq<char>| candidates_between(from, to).contains(x) implies used.contains(x) by {
                let m = choose|m: nat| from <= m < to && x == scene_candidate(m);
            }
        }
        vstd::set_lib::lemma_len_subset(candidates_between(from, to), used);
    } else {
        let m = choose|m: nat| from <= m < to && !used.contains(#[trigger] scene_candidate(m));
        lemma_first_free_exists(used, from, m);
    }
}

/// Scene id migration gives every scene a valid id and no two scenes the same id, and keeps
/// a scene's valid id unless an earlier scene already received it; the ids taken are
/// exactly the ids given.
pub proof fn law_migrated_ids_are_distinct_and_valid(ids: Seq<Seq<char>>)
    ensures
        ({
            let (out, used, next) = migration(ids);
            &&& out.len() == ids.len()
            &&& out.no_duplicates()
            &&& forall|i: int| 0 <= i < out.len() ==> valid_scene_id(#[trigger] out[i])
            &&& used == out.to_set()
            &&& used.finite()
            &&& forall|i: int|
                0 <= i < ids.len() && valid_scene_id(ids[i]) && !out.take(i).contains(ids[i])
                    ==> #[trigger] out[i] == ids[i]
        }),
    decreases ids.len(),
{
    if ids.len() > 0 {
        let prev = ids.drop_last();
        law_migrated_ids_are_distinct_and_valid(prev);
        let (out, used, next) = migration(prev);
        let id = ids.last();
        let last = ids.len() - 1;
        vstd::seq_lib::seq_to_set_is_finite(out);
        let x = if valid_scene_id(id) && !used.contains(id) {
            id
        } else {
            lemma_some_candidate_free(used, next);
            let n = first_free(used, next);
            lemma_candidate_valid(n);
            scene_candidate(n)
        };
        assert(!used.contains(x));
        let r = out.push(x);
        assert(migration(ids).0 == r);
        out.lemma_push_to_set_commute(x);
        assert forall|i: int, j: int| 0 <= i < r.len() && 0 <= j < r.len() && i != j implies r[i]
            != r[j] by {
            if i == out.len() {
                assert(out.to_set().contains(out[j]));
            } else if j == out.len() {
                assert(out.to_set().contains(out[i]));
            }
        }
        assert forall|i: int|
            0 <= i < ids.len() && valid_scene_id(ids[i]) && !r.take(i).contains(
                ids[i],
            ) implies #[trigger] r[i] == ids[i] by {
            if i < last {
                assert(prev[i] == ids[i]);
                assert(out.take(i) =~= r.take(i));
            } else {
                assert(out =~= r.take(i));
                assert(out.to_set().contains(id) == out.contains(id));
            }
        }
    }
}

/// A verification record made for a package accepts that package; a package of another size
/// is refused as damaged.
pub proof fn law_verification_round_trip(v: ProjectVerification, bytes: Seq<u8>, other: Seq<u8>)
    requires
        v.file_size == bytes.len(),
        v.checksum@ == hex_digits(fnv1a(bytes) as nat, 16),
    ensures
        package_error(v, bytes) is None,
        other.len() != bytes.len() ==> package_error(v, other) == Some(
            "工程验证失败：主工程文件大小不一致，文件可能已损坏"@,
        ),
{
}

/// After remembering a project it comes first, appears once, the list holds at most five
/// entries, and the others keep their order.
pub proof fn law_remembered_project_first(projects: Seq<String>, path: Seq<char>)
    ensures
        ({
            let r = remembered(projects, path);
            let rest = other_projects(projects, path);
            &&& r.len() >= 1
            &&& r.len() <= RECENT_PROJECT_LIMIT
            &&& r[0] == path
            &&& forall|i: int| 1 <= i < r.len() ==> #[trigger] r[i] != path
            &&& forall|i: int| 1 <= i < r.len() ==> #[trigger] r[i] == rest[i - 1]
        }),
{
    broadcast use vstd::seq_lib::group_filter_ensures;

    let rest = other_projects(projects, path);
    let all = seq![path] + rest;
    let r = remembered(projects, path);
    assert(r.len() <= all.len());
    assert forall|i: int| 1 <= i < r.len() implies #[trigger] r[i] == rest[i - 1] by {
        assert(i < all.len());
        assert(r[i] == all[i]);
        assert(all[i] == rest[i - 1]);
    }
    assert forall|i: int| 1 <= i < r.len() implies #[trigger] r[i] != path by {
        assert(r[i] == rest[i - 1]);
        assert(rest.contains(rest[i - 1]));
    }
}

/// A plain name's stem followed by `.slide2d` is a plain name with the extension `slide2d`.
#[verifier::rlimit(40)]
#[verifier::spinoff_prover]
proof fn lemma_project_name(last: Seq<char>)
    requires
        single_name(last),
    ensures
        single_name(name_stem(last) + ".slide2d"@),
        name_stem(last) + ".slide2d"@ != ".."@,
        name_extension(name_stem(last) + ".slide2d"@) == Some("slide2d"@),
{
    reveal_strlit("slide2d");
    reveal_strlit(".slide2d");
    reveal_strlit("..");
    reveal_strlit(".");
    crate::paths::lemma_stem_of_name(last);
    let stem = name_stem(last);
    let nl = stem + ".slide2d"@;
    assert(".slide2d"@ =~= seq!['.'] + "slide2d"@);
    assert(nl =~= stem + seq!['.'] + "slide2d"@);
    crate::paths::lemma_name_with_extension(stem, "slide2d"@);
    assert(nl.len() > 2);
    assert forall|i: int| 0 <= i < nl.len() implies #[trigger] nl[i] != '/' && nl[i] != '\\'
        && nl[i] != ':' by {
        if i < stem.len() {
            assert(nl[i] == last[i]);
        }
    }
}

/// Giving a project path the `.slide2d` extension twice is giving it once: the result is
/// again a path of names joined by `/`, and a second application leaves it unchanged; its
/// last piece carries the extension unless the path ended in `..` or in a name whose stem
/// is `.`.
#[verifier::spinoff_prover]
pub proof fn law_project_path_idempotent(s: Seq<char>)
    requires
        slash_path(s),
    ensures
        slash_path(project_path(s)),
        project_path(project_path(s)) == project_path(s),
        last_piece(s) != ".."@ && (piece_extension(s) == Some("slide2d"@) || name_stem(
            last_piece(s),
        ) != "."@) ==> last_piece(project_path(s)) != ".."@ && piece_extension(project_path(s))
            == Some("slide2d"@),
{
    if last_piece(s) == ".."@ || piece_extension(s) == Some("slide2d"@) {
        return;
    }
    let p = path_pieces(s);
    let last = last_piece(s);
    crate::paths::lemma_pieces_nonempty(path_body(s));
    assert(single_name(slash_pieces(path_body(s))[p.len() - 1]) || slash_pieces(path_body(s))[p.len()
        - 1] == ".."@);
    assert(single_name(last));
    if name_stem(last) == "."@ {
        crate::paths::lemma_replace_last_piece(s, ".."@);
        assert(last_piece(project_path(s)) == ".."@);
        return;
    }
    lemma_project_name(last);
    let nl = name_stem(last) + ".slide2d"@;
    crate::paths::lemma_replace_last_piece(s, nl);
    assert(project_path(s) =~= before_last_piece(s) + nl);
    assert(last_piece(project_path(s)) == nl);
}

/// Giving a project path the `.slide2d` extension twice is giving it once also when `.`
/// pieces or repeated separators come before its last piece: the result again ends in a
/// named piece, and a second application leaves it unchanged; its last piece carries the
/// extension unless the path ended in `..` or in a name whose stem is `.`.
#[verifier::spinoff_prover]
#[verifier::rlimit(80)]
pub proof fn law_loose_project_path_idempotent(s: Seq<char>)
    requires
        ends_named(s),
    ensures
        ends_named(project_path(s)),
        project_path(project_path(s)) == project_path(s),
        last_piece(s) != ".."@ && (piece_extension(s) == Some("slide2d"@) || name_stem(
            last_piece(s),
        ) != "."@) ==> last_piece(project_path(s)) != ".."@ && piece_extension(project_path(s))
            == Some("slide2d"@),
{
    if last_piece(s) == ".."@ || piece_extension(s) == Some("slide2d"@) {
        return;
    }
    let last = last_piece(s);
    assert(single_name(last));
    reveal_strlit("..");
    if name_stem(last) == "."@ {
        crate::paths::lemma_replace_last_named_piece(s, ".."@);
        assert(last_piece(project_path(s)) == ".."@);
        return;
    }
    lemma_project_name(last);
    let nl = name_stem(last) + ".slide2d"@;
    crate::paths::lemma_replace_last_named_piece(s, nl);
    assert(project_path(s) =~= before_last_piece(s) + nl);
    assert(last_piece(project_path(s)) == nl);
}

/// A sanitized file name is never blank and holds no character Windows forbids.
pub proof fn law_sanitized_name_is_usable(name: Seq<char>, index: nat)
    ensures
        !is_blank(sanitized_file_name(name, index)),
        forall|i: int|
            0 <= i < sanitized_file_name(name, index).len() ==> !forbidden_in_names(
                #[trigger] sanitized_file_name(name, index)[i],
            ),
{
    let u = underscored(name);
    if is_blank(u) {
        reveal_strlit("scene_");
        let r = "scene_"@ + decimal(index + 1);
        lemma_decimal_digits(index + 1);
        assert(!crate::text::is_white_space(r[0]));
        assert forall|i: int| 0 <= i < r.len() implies !forbidden_in_names(#[trigger] r[i]) by {
            if i >= 6 {
                assert(r[i] == decimal(index + 1)[i - 6]);
            }
        }
    }
}

} // verus!
