//! Sprite animations: frame paths stored relative to the project and resolved back to files,
//! the frame dragged inside the animation editor, and the frame its preview shows.

use crate::assets::{join_path, joined};
use crate::paths::{
    is_rooted, join_pieces, lemma_join_avoids, lemma_join_concat, lemma_join_split,
    lemma_pieces_nonempty, lemma_slash_path_has_no_backslash, lemma_split_join, path_body,
    path_is_absolute, path_pieces, path_strip_prefix, relative_path, single_name, slash_path,
    slash_pieces, stripped_rest, cur_dir_lead, lemma_loose_path_has_no_backslash,
    lemma_loose_text_has_no_backslash, lemma_pieces_concat, loose_path, loose_prefix, loose_text,
    named_piece, named_pieces, same_components, stripped_form, named_of, lemma_named_of_concat,
    lemma_named_of_empty_piece,
};
use crate::text::{chars_of, string_from_chars};
use vstd::prelude::*;

verus! {

broadcast use vstd::string::group_string_axioms;

/// The frame being dragged to a new position in the animation editor.
#[derive(Clone, Copy, PartialEq, Eq, Structural, Debug)]
pub struct AnimationFrameDragPayload {
    pub index: usize,
}

/// A sprite animation asset: its frames (image paths), frame rate (an `f32` bit pattern)
/// and whether it loops.
pub struct SpriteAnimation {
    pub slide2d_engine: String,
    pub name: String,
    pub frames: Vec<String>,
    pub frames_per_second: u32,
    pub looping: bool,
}

/// The bit pattern of the `f32` 12.0, the frame rate of a new animation.
pub const DEFAULT_FRAMES_PER_SECOND: u32 = 0x4140_0000;

impl SpriteAnimation {
    /// A new looping animation named "新动画" without frames, at 12 frames per second.
    pub fn new() -> (r: Self)
        ensures
            r.slide2d_engine@ == "SLIDE2D_ANIMATION"@,
            r.name@ == "新动画"@,
            r.frames@.len() == 0,
            r.frames_per_second == DEFAULT_FRAMES_PER_SECOND,
            r.looping,
    {
        SpriteAnimation {
            slide2d_engine: "SLIDE2D_ANIMATION".to_string(),
            name: "新动画".to_string(),
            frames: Vec::new(),
            frames_per_second: DEFAULT_FRAMES_PER_SECOND,
            looping: true,
        }
    }
}

/// A path with every `\` replaced by `/`.
pub open spec fn forward_slashes(s: Seq<char>) -> Seq<char> {
    s.map_values(|c: char| if c == '\\' { '/' } else { c })
}

/// Replaces every `\` of a path by `/`.
pub fn with_forward_slashes(s: &str) -> (r: String)
    ensures
        r@ == forward_slashes(s@),
{
    let v = chars_of(s);
    let mut out: Vec<char> = Vec::new();
    let mut i: usize = 0;
    while i < v.len()
        invariant
            i <= v@.len(),
            v@ == s@,
            out@ == forward_slashes(v@.take(i as int)),
        decreases v@.len() - i,
    {
        let c = v[i];
        out.push(if c == '\\' { '/' } else { c });
        assert(out@ =~= forward_slashes(v@.take(i + 1)));
        i = i + 1;
    }
    assert(v@.take(i as int) =~= v@);
    string_from_chars(&out)
}

/// The stored form of a path: what is left after the project root when the platform finds
/// the root as its prefix, else the whole path, with `/` separators.
pub fn project_relative(rest: Option<&str>, path: &str) -> (r: String)
    ensures
        r@ == forward_slashes(
            match rest {
                Some(x) => x@,
                None => path@,
            },
        ),
{
    match rest {
        Some(x) => with_forward_slashes(x),
        None => with_forward_slashes(path),
    }
}

/// A text without `\` is its own form with `/` separators.
proof fn lemma_forward_slashes_keep(s: Seq<char>)
    requires
        forall|k: int| 0 <= k < s.len() ==> #[trigger] s[k] != '\\',
    ensures
        forward_slashes(s) == s,
{
    assert(forward_slashes(s) =~= s);
}

/// Turns an absolute resource path into a project-relative one with `/` separators; a path
/// outside the project keeps its full form. When the root and the path are names and `..`
/// joined by `/` (after an optional leading `/`), the result is the path's pieces after the
/// root's, joined by `/`, if the root's pieces begin the path's, else the path itself. With
/// `.` pieces, repeated separators or a trailing `/` allowed, the result is the path's text
/// after the root's components when the root begins the path component by component (a
/// relative text whose named pieces are the path's after the root's), else the path itself.
pub fn relative_to_project(project_root: &str, path: &str) -> (r: String)
    ensures
        exists|x: Seq<char>| r@ == forward_slashes(x),
        slash_path(project_root@) && slash_path(path@) ==> r@ == match stripped_rest(
            path@,
            project_root@,
        ) {
            Some(rest) => rest,
            None => path@,
        },
        loose_path(project_root@) && loose_path(path@) ==> if loose_prefix(path@, project_root@) {
            stripped_form(path@, project_root@, r@)
        } else {
            r@ == path@
        },
{
    let rest = path_strip_prefix(path, project_root);
    proof {
        if loose_path(project_root@) && loose_path(path@) {
            lemma_loose_path_has_no_backslash(path@);
            lemma_forward_slashes_keep(path@);
            match &rest {
                Some(x) => {
                    lemma_loose_text_has_no_backslash(x@);
                    lemma_forward_slashes_keep(x@);
                },
                None => {},
            }
        }
        if slash_path(project_root@) && slash_path(path@) {
            lemma_slash_path_has_no_backslash(path@);
            lemma_forward_slashes_keep(path@);
            match stripped_rest(path@, project_root@) {
                Some(x) => {
                    let ps = path_pieces(path@);
                    let tail = ps.skip(path_pieces(project_root@).len() as int);
                    reveal_strlit("..");
                    assert forall|i: int, j: int|
                        0 <= i < tail.len() && 0 <= j < tail[i].len() implies #[trigger] tail[i][j]
                        != '\\' by {
                        let piece = ps[i + path_pieces(project_root@).len()];
                        assert(tail[i] == piece);
                        if piece == ".."@ {
                            assert(".."@ =~= seq!['.', '.']);
                        } else {
                            assert(single_name(piece));
                        }
                    }
                    lemma_join_avoids(tail, '\\');
                    lemma_forward_slashes_keep(x);
                },
                None => {},
            }
        }
    }
    match &rest {
        Some(x) => project_relative(Some(x.as_str()), path),
        None => project_relative(None, path),
    }
}

/// The file a stored frame path points to: the path itself when absolute, else the path
/// below the project root.
pub fn resolved_path(is_absolute: bool, project_root: &str, path: &str) -> (r: String)
    ensures
        r@ == if is_absolute {
            path@
        } else {
            joined(project_root@, path@)
        },
{
    if is_absolute {
        string_from_chars(&chars_of(path))
    } else {
        join_path(project_root, path)
    }
}

/// Resolves a frame path stored in an animation to a file, judging by the platform's rules
/// whether it is absolute; a single plain name, and any relative path of names and `..`
/// joined by `/`, lies below the project root.
pub fn resolve_asset_path(project_root: &str, path: &str) -> (r: String)
    ensures
        r@ == path@ || r@ == joined(project_root@, path@),
        single_name(path@) ==> r@ == joined(project_root@, path@),
        relative_path(path@) ==> r@ == joined(project_root@, path@),
        loose_path(path@) && !is_rooted(path@) ==> r@ == joined(project_root@, path@),
{
    resolved_path(path_is_absolute(path), project_root, path)
}

/// A path inside the project, stored relative to the project root and resolved again,
/// comes back unchanged: when root and path are names and `..` joined by `/` (after an
/// optional leading `/`), rooted alike, and the root's pieces begin the path's and are
/// fewer, the stored form is a relative path and joining it below the root gives the path.
#[verifier::rlimit(40)]
pub proof fn law_relative_path_round_trip(root: Seq<char>, path: Seq<char>)
    requires
        slash_path(root),
        slash_path(path),
        is_rooted(root) == is_rooted(path),
        path_pieces(root).len() < path_pieces(path).len(),
        path_pieces(path).subrange(0, path_pieces(root).len() as int) == path_pieces(root),
    ensures
        stripped_rest(path, root) is Some,
        relative_path(stripped_rest(path, root)->0),
        joined(root, stripped_rest(path, root)->0) == path,
{
    reveal_strlit("..");
    reveal_strlit("/");
    let rp = path_pieces(root);
    let pp = path_pieces(path);
    let k = rp.len() as int;
    let tail = pp.skip(k);
    let rel = join_pieces(tail);
    assert(stripped_rest(path, root) == Some(rel));
    lemma_pieces_nonempty(path_body(root));
    assert forall|i: int, j: int| 0 <= i < pp.len() && 0 <= j < pp[i].len() implies #[trigger] pp[i][j]
        != '/' by {
        if pp[i] == ".."@ {
            assert(".."@ =~= seq!['.', '.']);
        } else {
            assert(single_name(pp[i]));
        }
    }
    assert forall|i: int, j: int| 0 <= i < tail.len() && 0 <= j < tail[i].len() implies #[trigger] tail[i][j]
        != '/' by {
        assert(tail[i] == pp[i + k]);
        assert(pp[i + k][j] != '/');
    }
    lemma_split_join(tail);
    assert forall|i: int| 0 <= i < slash_pieces(rel).len() implies single_name(
        #[trigger] slash_pieces(rel)[i],
    ) || slash_pieces(rel)[i] == ".."@ by {
        assert(slash_pieces(rel)[i] == pp[i + k]);
    }
    lemma_join_split(path_body(root));
    lemma_join_split(path_body(path));
    assert(pp =~= rp + tail);
    lemma_join_concat(rp, tail);
    let body = path_body(root);
    assert(body == join_pieces(rp));
    assert(rp[k - 1] == pp[k - 1]);
    assert(single_name(rp[k - 1]) || rp[k - 1] == ".."@);
    assert(rp[k - 1].len() > 0);
    if k == 1 {
        assert(body == rp[0]);
    } else {
        assert(body == join_pieces(rp.drop_last()) + "/"@ + rp.last());
    }
    assert(body.len() > 0 && body.last() == rp.last().last());
    assert(rp.last().last() != '/');
    assert(root.len() > 0 && root.last() == body.last());
    if is_rooted(root) {
        assert(root =~= seq!['/'] + body);
        assert(path =~= seq!['/'] + path_body(path));
    } else {
        assert(root == body);
    }
    assert(joined(root, rel) =~= path);
}

/// The pieces of a root's body with a relative text joined below it: the body's pieces
/// followed by the text's, less an empty last piece that a trailing `/` of the root leaves.
#[verifier::rlimit(60)]
#[verifier::spinoff_prover]
proof fn lemma_joined_pieces(root: Seq<char>, stored: Seq<char>)
    requires
        loose_path(root),
        stored.len() > 0,
        !is_rooted(stored),
    ensures
        is_rooted(joined(root, stored)) == is_rooted(root),
        path_pieces(joined(root, stored))[0] == path_pieces(root)[0],
        named_pieces(joined(root, stored)) == named_pieces(root) + named_of(slash_pieces(stored)),
{
    reveal_strlit("/");
    let body = path_body(root);
    let r = slash_pieces(body);
    let t = slash_pieces(stored);
    lemma_pieces_nonempty(body);
    lemma_pieces_nonempty(stored);
    if root.len() == 0 {
        assert(body.len() == 0);
        assert(r =~= seq![Seq::<char>::empty()]);
        lemma_named_of_empty_piece();
    }
    assert(root.len() > 0);
    let j = joined(root, stored);
    if root.last() != '/' {
        let bs = body + "/"@;
        assert(bs.drop_last() =~= body);
        assert(bs.last() == '/');
        assert(slash_pieces(bs) == r.push(Seq::<char>::empty()));
        lemma_pieces_concat(bs, stored);
        assert(Seq::<char>::empty() + t[0] =~= t[0]);
        assert(slash_pieces(bs + stored) =~= r + t);
        if is_rooted(root) {
            assert(j =~= seq!['/'] + (bs + stored));
            assert(path_body(j) =~= bs + stored);
        } else {
            assert(j =~= bs + stored);
            assert(root == body);
            assert(j[0] == root[0]);
            assert(path_body(j) == bs + stored);
        }
        lemma_named_of_concat(r, t);
        assert((r + t)[0] == r[0]);
    } else {
        if body.len() == 0 {
            assert(root =~= seq!['/']);
            assert(body =~= Seq::<char>::empty());
            assert(r =~= seq![Seq::<char>::empty()]);
            lemma_named_of_empty_piece();
        }
        assert(body.len() > 0);
        assert(body.last() == '/');
        let b0 = body.drop_last();
        lemma_pieces_nonempty(b0);
        assert(r == slash_pieces(b0).push(Seq::<char>::empty()));
        assert(r.len() >= 2);
        lemma_pieces_concat(body, stored);
        assert(r.last() == Seq::<char>::empty());
        assert(Seq::<char>::empty() + t[0] =~= t[0]);
        let rd = r.drop_last();
        assert(slash_pieces(body + stored) =~= rd + t);
        if is_rooted(root) {
            assert(j =~= seq!['/'] + (body + stored));
            assert(path_body(j) =~= body + stored);
        } else {
            assert(j =~= body + stored);
            assert(root == body);
            assert(j[0] == root[0]);
            assert(path_body(j) == body + stored);
        }
        lemma_named_of_concat(rd, t);
        lemma_named_of_concat(rd, seq![Seq::<char>::empty()]);
        assert(rd + seq![Seq::<char>::empty()] =~= r);
        lemma_named_of_empty_piece();
        assert(named_of(rd) + Seq::<Seq<char>>::empty() =~= named_of(rd));
        assert((rd + t)[0] == r[0]);
    }
}

/// A path inside the project stored relative to the project root and resolved again names
/// the path's components, also with `.` pieces, repeated separators or a trailing `/`:
/// whatever text the platform leaves of the path after the root (when the root begins it
/// and the path goes deeper), it is a relative path, and joining it below the root gives a
/// path rooted alike, with the same current-directory lead and the same named pieces, the
/// components `Path` equality compares.
#[verifier::rlimit(40)]
pub proof fn law_loose_round_trip(root: Seq<char>, path: Seq<char>, stored: Seq<char>)
    requires
        loose_path(root),
        loose_path(path),
        loose_prefix(path, root),
        named_pieces(root).len() < named_pieces(path).len(),
        stripped_form(path, root, stored),
    ensures
        loose_path(stored),
        !is_rooted(stored),
        same_components(joined(root, stored), path),
{
    let k = named_pieces(root).len() as int;
    let np = named_pieces(path);
    if stored.len() == 0 {
        assert(slash_pieces(stored) =~= seq![Seq::<char>::empty()]);
        lemma_named_of_empty_piece();
        assert(path_body(stored) == stored);
        assert(np.skip(k).len() > 0);
    }
    assert(stored.len() > 0);
    assert(path_body(stored) == stored);
    assert(named_of(slash_pieces(stored)) == named_pieces(stored));
    lemma_joined_pieces(root, stored);
    assert(np =~= np.take(k) + np.skip(k));
    assert(named_pieces(joined(root, stored)) == np);
    if !is_rooted(root) {
        assert(cur_dir_lead(joined(root, stored)) == cur_dir_lead(root));
    }
}

/// The frame the animation preview shows. `elapsed_frames` is how many frames of time have
/// passed since the preview started (the elapsed seconds times the frame rate, taken as at
/// least one frame per second).
pub open spec fn preview_frame(
    frame_count: nat,
    playing: bool,
    selected_frame: Option<usize>,
    looping: bool,
    elapsed_frames: nat,
) -> Option<nat> {
    if frame_count == 0 {
        None
    } else if !playing {
        let selected: nat = match selected_frame {
            Some(i) => i as nat,
            None => 0,
        };
        Some(if selected < frame_count { selected } else { (frame_count - 1) as nat })
    } else if looping {
        Some(elapsed_frames % frame_count)
    } else {
        Some(if elapsed_frames < frame_count { elapsed_frames } else { (frame_count - 1) as nat })
    }
}

/// Chooses the preview frame: none without frames; while paused the selected frame (the
/// first when none is selected), held at the last frame; while playing the elapsed frame,
/// wrapped around when the animation loops and held at the last frame when it does not.
pub fn preview_frame_index(
    frame_count: usize,
    playing: bool,
    selected_frame: Option<usize>,
    looping: bool,
    elapsed_frames: usize,
) -> (r: Option<usize>)
    ensures
        match r {
            Some(i) => preview_frame(
                frame_count as nat,
                playing,
                selected_frame,
                looping,
                elapsed_frames as nat,
            ) == Some(i as nat),
            None => preview_frame(
                frame_count as nat,
                playing,
                selected_frame,
                looping,
                elapsed_frames as nat,
            ) is None,
        },
        match r {
            Some(i) => i < frame_count,
            None => frame_count == 0,
        },
{
    if frame_count == 0 {
        return None;
    }
    if !playing {
        let selected = match selected_frame {
            Some(i) => i,
            None => 0,
        };
        return Some(if selected < frame_count { selected } else { frame_count - 1 });
    }
    if looping {
        Some(elapsed_frames % frame_count)
    } else {
        Some(if elapsed_frames < frame_count { elapsed_frames } else { frame_count - 1 })
    }
}

} // verus!
