//! What the library reads from `std::path`: how the platform splits a path into its
//! parts. Each reading is a call into `std::path::Path`; how a path with separators
//! splits depends on the platform, so the statements about the calls cover single plain
//! names, which every platform reads alike.

use vstd::prelude::*;

verus! {

broadcast use vstd::string::group_string_axioms;

/// Whether a path is a single plain name on every platform: not empty, not `.` or `..`,
/// and without `/`, `\` or `:`.
pub open spec fn single_name(s: Seq<char>) -> bool {
    &&& s.len() > 0
    &&& s != "."@
    &&& s != ".."@
    &&& forall|i: int| 0 <= i < s.len() ==> #[trigger] s[i] != '/' && s[i] != '\\' && s[i] != ':'
}

/// The extension of a file name: the part after its last `.`, none when the name has no
/// `.` or its only `.` comes first.
pub open spec fn name_extension(s: Seq<char>) -> Option<Seq<char>> {
    if exists|i: int| 0 < i < s.len() && s[i] == '.' {
        let i = choose|i: int|
            0 < i < s.len() && s[i] == '.' && forall|j: int| i < j < s.len() ==> s[j] != '.';
        Some(s.subrange(i + 1, s.len() as int))
    } else {
        None
    }
}

/// The stem of a file name: the part before its last `.`, the whole name when it has no
/// extension.
pub open spec fn name_stem(s: Seq<char>) -> Seq<char> {
    match name_extension(s) {
        Some(e) => s.subrange(0, s.len() - e.len() - 1),
        None => s,
    }
}

/// The extension of a single plain name as `std::path::Path::extension` reads it.
pub open spec fn plain_name_extension(s: Seq<char>) -> Option<Seq<char>> {
    if s == "."@ || s == ".."@ {
        None
    } else {
        name_extension(s)
    }
}

/// The extension `Path::extension` reads from a path, when it is valid Unicode: that of its
/// file name, the last component, split at its last `.` (none for `..`, a name without `.`,
/// or one whose only `.` comes first). For a single plain name, for a path of names and
/// `..` joined by `/` after an optional leading `/`, and for such a path with `.` pieces,
/// repeated separators or a trailing `/` (which the documentation says are normalized away,
/// the file name being the last remaining component), this is stated; for other paths
/// nothing is.
#[verifier::external_body]
pub(crate) fn path_extension(path: &str) -> (r: Option<String>)
    ensures
        single_name(path@) ==> match r {
            Some(e) => name_extension(path@) == Some(e@),
            None => name_extension(path@) is None,
        },
        slash_path(path@) ==> match r {
            Some(e) => piece_extension(path@) == Some(e@),
            None => piece_extension(path@) is None,
        },
        loose_path(path@) ==> match r {
            Some(e) => loose_extension(path@) == Some(e@),
            None => loose_extension(path@) is None,
        },
{
    match std::path::Path::new(path).extension() {
        Some(e) => match e.to_str() {
            Some(s) => Some(s.to_owned()),
            None => None,
        },
        None => None,
    }
}

/// The stem `Path::file_stem` reads from a path, when it is valid Unicode: the file name
/// (the last component) before its last `.`, the whole name without an extension, none when
/// the last component is `..`. Stated for a single plain name and for a path of names and
/// `..` joined by `/` after an optional leading `/`, also with `.` pieces, repeated
/// separators or a trailing `/` (normalized away, the last remaining component being the
/// file name); for other paths nothing is stated.
#[verifier::external_body]
pub(crate) fn path_file_stem(path: &str) -> (r: Option<String>)
    ensures
        single_name(path@) ==> match r {
            Some(s) => s@ == name_stem(path@),
            None => false,
        },
        slash_path(path@) ==> match r {
            Some(s) => last_piece(path@) != ".."@ && s@ == name_stem(last_piece(path@)),
            None => last_piece(path@) == ".."@,
        },        loose_path(path@) ==> match r {
            Some(s) => loose_last(path@) != ".."@ && s@ == name_stem(loose_last(path@)),
            None => loose_last(path@) == ".."@,
        },
{
    match std::path::Path::new(path).file_stem() {
        Some(s) => match s.to_str() {
            Some(t) => Some(t.to_owned()),
            None => None,
        },
        None => None,
    }
}

/// The parent `Path::parent` reads from a path, when it is valid Unicode: the path without
/// its last component and the separator before it. A single plain name has the empty path
/// as its parent; a path of names and `..` joined by `/` after an optional leading `/` has
/// the text before the `/` in front of its last piece (`/` itself for a rooted single
/// piece). With `.` pieces, repeated separators or a trailing `/` allowed, the parent is the
/// path's text up to the end of its last component but one, as the source's `as_path`
/// trims the separators and `.` pieces around the remaining components (keeping a leading
/// `.` and the root). For other paths nothing is stated.
#[verifier::external_body]
pub(crate) fn path_parent(path: &str) -> (r: Option<String>)
    ensures
        single_name(path@) ==> match r {
            Some(s) => s@.len() == 0,
            None => false,
        },
        slash_path(path@) ==> match r {
            Some(s) => s@ == parent_text(path@),
            None => false,
        },        loose_path(path@) ==> match r {
            Some(s) => s@ == loose_parent(path@),
            None => false,
        },
{
    match std::path::Path::new(path).parent() {
        Some(p) => match p.to_str() {
            Some(t) => Some(t.to_owned()),
            None => None,
        },
        None => None,
    }
}

/// The path `Path::with_extension` builds, converted lossily to text. `Path::set_extension`
/// panics on an extension holding a path separator, so the extension may hold neither `/`
/// nor `\`. The file name (the last component) is replaced by its stem, `.` and the
/// extension, when the extension is not empty and the stem is not `.`. A name whose stem is
/// `.` (such as `..x`) first loses its extension, which leaves the component `..`; that has
/// no file name, so nothing is added. A last component `..` leaves the path as it is. This
/// is stated for a single plain name, for a path of names and `..` joined by `/` after an
/// optional leading `/`, and for such a path with `.` pieces or repeated separators before
/// its last piece when that piece ends the path; for other paths nothing is stated.
#[verifier::external_body]
pub(crate) fn path_with_extension(path: &str, extension: &str) -> (r: String)
    requires
        forall|i: int| 0 <= i < extension@.len() ==> #[trigger] extension@[i] != '/' && extension@[i]
            != '\\',
    ensures
        single_name(path@) && extension@.len() > 0 && name_stem(path@) != "."@ ==> r@ == name_stem(
            path@,
        ) + "."@ + extension@,
        slash_path(path@) && last_piece(path@) != ".."@ && extension@.len() > 0 && name_stem(
            last_piece(path@),
        ) != "."@ ==> r@ == before_last_piece(path@) + name_stem(last_piece(path@)) + "."@
            + extension@,
        slash_path(path@) && last_piece(path@) == ".."@ ==> r@ == path@,
        single_name(path@) && name_stem(path@) == "."@ ==> r@ == ".."@,
        slash_path(path@) && last_piece(path@) != ".."@ && name_stem(last_piece(path@)) == "."@
            ==> r@ == before_last_piece(path@) + ".."@,        ends_named(path@) && last_piece(path@) != ".."@ && extension@.len() > 0 && name_stem(
            last_piece(path@),
        ) != "."@ ==> r@ == before_last_piece(path@) + name_stem(last_piece(path@)) + "."@
            + extension@,
        ends_named(path@) && last_piece(path@) == ".."@ ==> r@ == path@,
        ends_named(path@) && last_piece(path@) != ".."@ && name_stem(last_piece(path@)) == "."@
            ==> r@ == before_last_piece(path@) + ".."@,
{
    std::path::Path::new(path).with_extension(extension).to_string_lossy().into_owned()
}

/// The pieces of a text between its `/` characters, in order (one piece when it has none).
pub open spec fn slash_pieces(s: Seq<char>) -> Seq<Seq<char>>
    decreases s.len(),
{
    if s.len() == 0 {
        seq![Seq::<char>::empty()]
    } else {
        let init = slash_pieces(s.drop_last());
        if s.last() == '/' {
            init.push(Seq::<char>::empty())
        } else {
            init.update(init.len() - 1, init.last().push(s.last()))
        }
    }
}

/// Whether a path is a relative path that every platform splits alike: names joined by `/`,
/// each a single plain name or `..`.
pub open spec fn relative_path(s: Seq<char>) -> bool {
    forall|i: int|
        0 <= i < slash_pieces(s).len() ==> single_name(#[trigger] slash_pieces(s)[i])
            || slash_pieces(s)[i] == ".."@
}

/// Whether a path component is what a piece of a relative path stands for: `..` is the
/// parent component, any other piece a normal component holding its text.
pub open spec fn part_for_piece(part: PathPart, piece: Seq<char>) -> bool {
    if piece == ".."@ {
        part is ParentDir
    } else {
        part matches PathPart::Normal(name) && name@ == piece
    }
}

/// Whether a path starts at the root: its first character is `/`.
pub open spec fn is_rooted(s: Seq<char>) -> bool {
    s.len() > 0 && s[0] == '/'
}

/// A path without its leading root `/`.
pub open spec fn path_body(s: Seq<char>) -> Seq<char> {
    if is_rooted(s) {
        s.drop_first()
    } else {
        s
    }
}

/// Whether every platform splits a path alike: an optional leading `/`, then names and `..`
/// joined by `/` (no `\`, no `:`, no `.` piece, no empty piece).
pub open spec fn slash_path(s: Seq<char>) -> bool {
    relative_path(path_body(s))
}

/// Whether a piece of a path is one every platform reads alike: a single plain name, `..`,
/// `.` or empty.
pub open spec fn loose_piece(p: Seq<char>) -> bool {
    single_name(p) || p == ".."@ || p == "."@ || p.len() == 0
}

/// Whether a piece names a component: a plain name or `..` (`.` pieces and empty pieces,
/// from repeated or trailing separators, are normalized away).
pub open spec fn named_piece(p: Seq<char>) -> bool {
    single_name(p) || p == ".."@
}

/// The pieces of a list that name components, in order.
pub open spec fn named_of(ps: Seq<Seq<char>>) -> Seq<Seq<char>> {
    ps.filter(|p: Seq<char>| named_piece(p))
}

/// The pieces of a path that name components, in order.
pub open spec fn named_pieces(s: Seq<char>) -> Seq<Seq<char>> {
    named_of(path_pieces(s))
}

/// An empty piece names no component.
#[verifier::spinoff_prover]
pub proof fn lemma_named_of_empty_piece()
    ensures
        named_of(seq![Seq::<char>::empty()]) == Seq::<Seq<char>>::empty(),
        named_of(Seq::<Seq<char>>::empty()) == Seq::<Seq<char>>::empty(),
{
    reveal(Seq::filter);
    reveal_strlit("..");
    let e = Seq::<char>::empty();
    let one = seq![e];
    let none = Seq::<Seq<char>>::empty();
    assert(".."@.len() == 2);
    assert(e.len() == 0);
    assert(e != ".."@);
    assert(!single_name(e));
    assert(!named_piece(e));
    assert(named_of(none) == none);
    assert(one.len() == 1 && one.last() == e);
    assert(one.drop_last() =~= none);
    assert(named_of(one) == named_of(one.drop_last()));
}

/// A loose path that ends in a named piece has that piece as its file name.
pub proof fn lemma_ends_named_last(s: Seq<char>)
    requires
        ends_named(s),
    ensures
        loose_last(s) == last_piece(s),
        loose_extension(s) == piece_extension(s),
{
    let ps = path_pieces(s);
    lemma_pieces_nonempty(path_body(s));
    assert(ps =~= ps.drop_last() + seq![ps.last()]);
    lemma_named_of_concat(ps.drop_last(), seq![ps.last()]);
    assert(named_of(seq![ps.last()]) == seq![ps.last()]) by {
        reveal(Seq::filter);
        assert(seq![ps.last()].drop_last() =~= Seq::<Seq<char>>::empty());
    }
}

/// The named pieces of two lists put together are those of each, in order.
pub proof fn lemma_named_of_concat(a: Seq<Seq<char>>, b: Seq<Seq<char>>)
    ensures
        named_of(a + b) == named_of(a) + named_of(b),
    decreases b.len(),
{
    reveal(Seq::filter);
    if b.len() == 0 {
        assert(a + b =~= a);
        assert(named_of(b) =~= Seq::<Seq<char>>::empty());
        assert(named_of(a) + named_of(b) =~= named_of(a));
    } else {
        lemma_named_of_concat(a, b.drop_last());
        assert((a + b).drop_last() =~= a + b.drop_last());
        assert((a + b).last() == b.last());
        if named_piece(b.last()) {
            assert(named_of(a) + named_of(b) =~= (named_of(a) + named_of(b.drop_last())).push(
                b.last(),
            ));
        } else {
            assert(named_of(b) == named_of(b.drop_last()));
        }
    }
}

/// Whether every platform splits a path alike, with `.` pieces, repeated separators and a
/// trailing `/` allowed: an optional leading `/` not followed by a second one (two leading
/// separators begin a network prefix on Windows), then pieces each a single plain name,
/// `..`, `.` or empty, at least one of them a name or `..`.
pub open spec fn loose_path(s: Seq<char>) -> bool {
    &&& !(is_rooted(s) && path_body(s).len() > 0 && path_body(s)[0] == '/')
    &&& forall|i: int| 0 <= i < path_pieces(s).len() ==> loose_piece(#[trigger] path_pieces(s)[i])
    &&& named_pieces(s).len() > 0
}

/// The file name of a loose path: its last named piece (no file name when that is `..`).
pub open spec fn loose_last(s: Seq<char>) -> Seq<char> {
    named_pieces(s).last()
}

/// The extension of a loose path: that of its last named piece, none for `..`.
pub open spec fn loose_extension(s: Seq<char>) -> Option<Seq<char>> {
    if loose_last(s) == ".."@ {
        None
    } else {
        name_extension(loose_last(s))
    }
}

/// Whether a loose path begins with the current-directory component: it is not rooted and
/// its first piece is `.`.
pub open spec fn cur_dir_lead(s: Seq<char>) -> int {
    if !is_rooted(s) && path_pieces(s)[0] == "."@ {
        1
    } else {
        0
    }
}

/// Whether a loose path leads out of its folder: one of its named pieces is `..`.
pub open spec fn loose_climbs(s: Seq<char>) -> bool {
    exists|i: int| 0 <= i < named_pieces(s).len() && #[trigger] named_pieces(s)[i] == ".."@
}

/// Whether every `/`-separated piece of a text is a single plain name, `..`, `.` or empty.
pub open spec fn loose_text(s: Seq<char>) -> bool {
    forall|i: int| 0 <= i < slash_pieces(s).len() ==> loose_piece(#[trigger] slash_pieces(s)[i])
}

/// Whether two loose paths name the same components, as `Path` equality compares them:
/// rooted alike, with the same current-directory lead and the same named pieces.
pub open spec fn same_components(a: Seq<char>, b: Seq<char>) -> bool {
    &&& is_rooted(a) == is_rooted(b)
    &&& cur_dir_lead(a) == cur_dir_lead(b)
    &&& named_pieces(a) == named_pieces(b)
}

/// Whether a loose base begins a loose path, component by component: both rooted alike,
/// with the same current-directory lead, and the base's named pieces begin the path's.
pub open spec fn loose_prefix(path: Seq<char>, base: Seq<char>) -> bool {
    &&& is_rooted(path) == is_rooted(base)
    &&& cur_dir_lead(path) == cur_dir_lead(base)
    &&& named_pieces(base).len() <= named_pieces(path).len()
    &&& named_pieces(path).take(named_pieces(base).len() as int) == named_pieces(base)
}

/// Whether a text is what is left of a loose path after a loose base that begins it: not
/// rooted, its pieces each a name, `..`, `.` or empty, beginning with a named piece unless
/// it is empty, and its named pieces those of the path after the base's.
pub open spec fn stripped_form(path: Seq<char>, base: Seq<char>, rest: Seq<char>) -> bool {
    &&& !is_rooted(rest)
    &&& loose_text(rest)
    &&& rest.len() > 0 ==> named_piece(slash_pieces(rest)[0])
    &&& named_pieces(rest) == named_pieces(path).skip(named_pieces(base).len() as int)
}

/// The index of the last named piece of a list before index `n`, or -1 when there is none.
pub open spec fn last_named_before(ps: Seq<Seq<char>>, n: int) -> int
    decreases n,
{
    if n <= 0 {
        -1
    } else if named_piece(ps[n - 1]) {
        n - 1
    } else {
        last_named_before(ps, n - 1)
    }
}

/// The parent the platform reads from a loose path: its text up to the end of the named
/// piece before its last one; without such a piece, `.` after a leading `.`, `/` for a
/// rooted path, else the empty path.
pub open spec fn loose_parent(s: Seq<char>) -> Seq<char> {
    let ps = path_pieces(s);
    let m = last_named_before(ps, last_named_before(ps, ps.len() as int));
    if m >= 0 {
        (if is_rooted(s) {
            "/"@
        } else {
            Seq::<char>::empty()
        }) + join_pieces(ps.take(m + 1))
    } else if cur_dir_lead(s) == 1 {
        "."@
    } else if is_rooted(s) {
        "/"@
    } else {
        Seq::<char>::empty()
    }
}

/// Whether a loose path ends in a named piece, with no `.` piece or separator after it.
pub open spec fn ends_named(s: Seq<char>) -> bool {
    loose_path(s) && named_piece(last_piece(s))
}

/// The pieces of a path after its optional leading `/`.
pub open spec fn path_pieces(s: Seq<char>) -> Seq<Seq<char>> {
    slash_pieces(path_body(s))
}

/// The last piece of a path: its file name unless it is `..`.
pub open spec fn last_piece(s: Seq<char>) -> Seq<char> {
    path_pieces(s).last()
}

/// The text of a path before its last piece (empty, `/`, or ending in `/`).
pub open spec fn before_last_piece(s: Seq<char>) -> Seq<char> {
    s.subrange(0, s.len() - last_piece(s).len())
}

/// The parent of a path made of pieces: the text before the separator in front of its
/// last piece; `/` for a rooted single piece, empty for a relative one.
pub open spec fn parent_text(s: Seq<char>) -> Seq<char> {
    if path_pieces(s).len() == 1 {
        if is_rooted(s) {
            "/"@
        } else {
            Seq::<char>::empty()
        }
    } else {
        s.subrange(0, s.len() - last_piece(s).len() - 1)
    }
}

/// The extension of a path made of pieces: that of its last piece, none for `..`.
pub open spec fn piece_extension(s: Seq<char>) -> Option<Seq<char>> {
    if last_piece(s) == ".."@ {
        None
    } else {
        name_extension(last_piece(s))
    }
}

/// Pieces joined by `/`.
pub open spec fn join_pieces(ps: Seq<Seq<char>>) -> Seq<char>
    decreases ps.len(),
{
    if ps.len() == 0 {
        Seq::<char>::empty()
    } else if ps.len() == 1 {
        ps[0]
    } else {
        join_pieces(ps.drop_last()) + "/"@ + ps.last()
    }
}

/// What is left of a path after a base, when both are made of pieces: the path's remaining
/// pieces joined by `/`, when the base is rooted alike and its pieces begin the path's.
pub open spec fn stripped_rest(path: Seq<char>, base: Seq<char>) -> Option<Seq<char>> {
    let p = path_pieces(path);
    let b = path_pieces(base);
    if is_rooted(path) == is_rooted(base) && b.len() <= p.len() && p.subrange(0, b.len() as int)
        == b {
        Some(join_pieces(p.skip(b.len() as int)))
    } else {
        None
    }
}

/// A text splits into at least one piece.
pub proof fn lemma_pieces_nonempty(s: Seq<char>)
    ensures
        slash_pieces(s).len() >= 1,
    decreases s.len(),
{
    if s.len() > 0 {
        lemma_pieces_nonempty(s.drop_last());
    }
}

/// A text starting with `/` splits into an empty first piece and at least one more.
proof fn lemma_rooted_pieces(s: Seq<char>)
    requires
        s.len() > 0,
        s[0] == '/',
    ensures
        slash_pieces(s).len() >= 2,
        slash_pieces(s)[0].len() == 0,
    decreases s.len(),
{
    if s.len() == 1 {
        assert(s.drop_last().len() == 0);
        assert(slash_pieces(s.drop_last()) =~= seq![Seq::<char>::empty()]);
    } else {
        lemma_rooted_pieces(s.drop_last());
    }
}

/// A relative path of names and `..` is not rooted, is a path made of pieces, and its
/// pieces are its `/`-separated parts.
pub proof fn lemma_relative_is_slash_path(s: Seq<char>)
    requires
        relative_path(s),
    ensures
        !is_rooted(s),
        slash_path(s),
        path_body(s) == s,
        path_pieces(s) == slash_pieces(s),
{
    if is_rooted(s) {
        lemma_rooted_pieces(s);
        assert(!single_name(slash_pieces(s)[0]));
        reveal_strlit("..");
        assert(slash_pieces(s)[0] != ".."@);
    }
}

/// A path made of pieces that is not rooted is a relative path of names and `..`.
pub proof fn lemma_unrooted_slash_path(s: Seq<char>)
    requires
        slash_path(s),
        !is_rooted(s),
    ensures
        relative_path(s),
        path_body(s) == s,
        path_pieces(s) == slash_pieces(s),
{
}

/// The pieces of two texts put together: the first text's pieces, its last one joined to
/// the second text's first, then the second text's other pieces.
pub proof fn lemma_pieces_concat(x: Seq<char>, b: Seq<char>)
    ensures
        slash_pieces(x + b) == slash_pieces(x).drop_last().push(
            slash_pieces(x).last() + slash_pieces(b)[0],
        ) + slash_pieces(b).drop_first(),
    decreases b.len(),
{
    lemma_pieces_nonempty(x);
    lemma_pieces_nonempty(b);
    let xs = slash_pieces(x);
    if b.len() == 0 {
        assert(x + b =~= x);
        assert(slash_pieces(b) =~= seq![Seq::<char>::empty()]);
        assert(xs.last() + Seq::<char>::empty() =~= xs.last());
        assert(xs.drop_last().push(xs.last()) + seq![Seq::<char>::empty()].drop_first() =~= xs);
    } else {
        let b0 = b.drop_last();
        let c = b.last();
        lemma_pieces_concat(x, b0);
        lemma_pieces_nonempty(b0);
        assert((x + b).drop_last() =~= x + b0);
        assert((x + b).last() == c);
        let s0 = slash_pieces(x + b0);
        let bs0 = slash_pieces(b0);
        let bs = slash_pieces(b);
        if c == '/' {
            assert(bs == bs0.push(Seq::<char>::empty()));
            assert(bs[0] == bs0[0]);
            assert(bs.drop_first() =~= bs0.drop_first().push(Seq::<char>::empty()));
            assert(slash_pieces(x + b) == s0.push(Seq::<char>::empty()));
            assert(s0.push(Seq::<char>::empty()) =~= xs.drop_last().push(xs.last() + bs[0])
                + bs.drop_first());
        } else {
            assert(bs == bs0.update(bs0.len() - 1, bs0.last().push(c)));
            assert(slash_pieces(x + b) == s0.update(s0.len() - 1, s0.last().push(c)));
            if bs0.len() == 1 {
                assert(bs0.drop_first() =~= Seq::<Seq<char>>::empty());
                assert(bs.drop_first() =~= Seq::<Seq<char>>::empty());
                assert((xs.last() + bs0[0]).push(c) =~= xs.last() + bs0[0].push(c));
                assert(s0.update(s0.len() - 1, s0.last().push(c)) =~= xs.drop_last().push(
                    xs.last() + bs[0],
                ) + bs.drop_first());
            } else {
                assert(bs[0] == bs0[0]);
                assert(bs.drop_first() =~= bs0.drop_first().update(
                    bs0.len() - 2,
                    bs0.last().push(c),
                ));
                assert(s0.update(s0.len() - 1, s0.last().push(c)) =~= xs.drop_last().push(
                    xs.last() + bs[0],
                ) + bs.drop_first());
            }
        }
    }
}

/// A text whose pieces are names, `..`, `.` or empty holds no `\`.
pub proof fn lemma_loose_text_has_no_backslash(s: Seq<char>)
    requires
        loose_text(s),
    ensures
        forall|k: int| 0 <= k < s.len() ==> #[trigger] s[k] != '\\',
{
    let ps = slash_pieces(s);
    reveal_strlit("..");
    reveal_strlit(".");
    assert forall|i: int, j: int| 0 <= i < ps.len() && 0 <= j < ps[i].len() implies #[trigger] ps[i][j]
        != '\\' by {
        if ps[i] == ".."@ {
            assert(".."@ =~= seq!['.', '.']);
        } else if ps[i] == "."@ {
            assert("."@ =~= seq!['.']);
        } else if ps[i].len() > 0 {
            assert(single_name(ps[i]));
        }
    }
    lemma_join_avoids(ps, '\\');
    lemma_join_split(s);
}

/// A loose path holds no `\`.
pub proof fn lemma_loose_path_has_no_backslash(s: Seq<char>)
    requires
        loose_path(s),
    ensures
        forall|k: int| 0 <= k < s.len() ==> #[trigger] s[k] != '\\',
{
    let b = path_body(s);
    lemma_loose_text_has_no_backslash(b);
    assert forall|k: int| 0 <= k < s.len() implies #[trigger] s[k] != '\\' by {
        if is_rooted(s) {
            if k > 0 {
                assert(s[k] == b[k - 1]);
            }
        } else {
            assert(s[k] == b[k]);
        }
    }
}

/// Joining the pieces of a text by `/` gives the text back.
pub proof fn lemma_join_split(s: Seq<char>)
    ensures
        join_pieces(slash_pieces(s)) == s,
    decreases s.len(),
{
    reveal_strlit("/");
    if s.len() > 0 {
        let t = s.drop_last();
        lemma_join_split(t);
        lemma_pieces_nonempty(t);
        let pt = slash_pieces(t);
        let p = slash_pieces(s);
        if s.last() == '/' {
            assert(p.drop_last() =~= pt);
            assert(s =~= t + "/"@ + Seq::<char>::empty());
        } else {
            if pt.len() == 1 {
                assert(p =~= seq![pt[0].push(s.last())]);
                assert(s =~= t.push(s.last()));
            } else {
                assert(p.drop_last() =~= pt.drop_last());
                assert(join_pieces(p) =~= join_pieces(pt).push(s.last()));
                assert(s =~= t.push(s.last()));
            }
        }
    } else {
        assert(slash_pieces(s) =~= seq![Seq::<char>::empty()]);
    }
}

/// A character other than `/` that no piece holds does not occur in their join.
pub proof fn lemma_join_avoids(ps: Seq<Seq<char>>, c: char)
    requires
        c != '/',
        forall|i: int, j: int| 0 <= i < ps.len() && 0 <= j < ps[i].len() ==> #[trigger] ps[i][j] != c,
    ensures
        forall|k: int| 0 <= k < join_pieces(ps).len() ==> #[trigger] join_pieces(ps)[k] != c,
    decreases ps.len(),
{
    reveal_strlit("/");
    if ps.len() > 1 {
        let init = ps.drop_last();
        lemma_join_avoids(init, c);
        let a = join_pieces(init);
        let last = ps.last();
        assert forall|k: int| 0 <= k < join_pieces(ps).len() implies #[trigger] join_pieces(ps)[k] != c by {
            if k < a.len() {
                assert(join_pieces(ps)[k] == a[k]);
            } else if k == a.len() {
                assert(join_pieces(ps)[k] == '/');
            } else {
                assert(join_pieces(ps)[k] == last[k - a.len() - 1]);
                assert(ps[ps.len() - 1][k - a.len() - 1] != c);
            }
        }
    } else if ps.len() == 1 {
        assert forall|k: int| 0 <= k < join_pieces(ps).len() implies #[trigger] join_pieces(ps)[k] != c by {
            assert(ps[0][k] != c);
        }
    }
}

/// A path made of pieces holds no `\`.
pub proof fn lemma_slash_path_has_no_backslash(s: Seq<char>)
    requires
        slash_path(s),
    ensures
        forall|k: int| 0 <= k < s.len() ==> #[trigger] s[k] != '\\',
{
    let b = path_body(s);
    let ps = slash_pieces(b);
    reveal_strlit("..");
    assert forall|i: int, j: int| 0 <= i < ps.len() && 0 <= j < ps[i].len() implies #[trigger] ps[i][j]
        != '\\' by {
        if ps[i] == ".."@ {
            assert(".."@ =~= seq!['.', '.']);
        } else {
            assert(single_name(ps[i]));
        }
    }
    lemma_join_avoids(ps, '\\');
    lemma_join_split(b);
    assert forall|k: int| 0 <= k < s.len() implies #[trigger] s[k] != '\\' by {
        if is_rooted(s) {
            if k > 0 {
                assert(s[k] == b[k - 1]);
            }
        } else {
            assert(s[k] == b[k]);
        }
    }
}

/// The last piece of a text ends it, and the text before it splits like the text with an
/// empty last piece.
pub proof fn lemma_last_piece_split(s: Seq<char>)
    ensures
        slash_pieces(s).len() >= 1,
        s.len() >= slash_pieces(s).last().len(),
        s.subrange(s.len() - slash_pieces(s).last().len(), s.len() as int) == slash_pieces(s).last(),
        slash_pieces(s.subrange(0, s.len() - slash_pieces(s).last().len())) == slash_pieces(s).update(
            slash_pieces(s).len() - 1,
            Seq::<char>::empty(),
        ),
    decreases s.len(),
{
    lemma_pieces_nonempty(s);
    let p = slash_pieces(s);
    if s.len() == 0 {
        assert(p =~= seq![Seq::<char>::empty()]);
        assert(s.subrange(0, 0) =~= s);
        assert(p.update(0, Seq::<char>::empty()) =~= p);
    } else {
        let t = s.drop_last();
        lemma_last_piece_split(t);
        let pt = slash_pieces(t);
        if s.last() == '/' {
            assert(s.subrange(s.len() as int, s.len() as int) =~= p.last());
            assert(s.subrange(0, s.len() as int) =~= s);
            assert(p.update(p.len() - 1, Seq::<char>::empty()) =~= p);
        } else {
            let lt = pt.last();
            assert(p.last() =~= lt.push(s.last()));
            assert(s.subrange(s.len() - p.last().len(), s.len() as int) =~= t.subrange(
                t.len() - lt.len(),
                t.len() as int,
            ).push(s.last()));
            assert(s.subrange(0, s.len() - p.last().len()) =~= t.subrange(0, t.len() - lt.len()));
            assert(p.update(p.len() - 1, Seq::<char>::empty()) =~= pt.update(
                pt.len() - 1,
                Seq::<char>::empty(),
            ));
        }
    }
}

/// Appending text without `/` extends the last piece.
pub proof fn lemma_pieces_append(x: Seq<char>, b: Seq<char>)
    requires
        forall|i: int| 0 <= i < b.len() ==> #[trigger] b[i] != '/',
    ensures
        slash_pieces(x + b) == slash_pieces(x).update(
            slash_pieces(x).len() - 1,
            slash_pieces(x).last() + b,
        ),
    decreases b.len(),
{
    lemma_pieces_nonempty(x);
    if b.len() == 0 {
        assert(x + b =~= x);
        assert(slash_pieces(x).last() + b =~= slash_pieces(x).last());
        assert(slash_pieces(x).update(slash_pieces(x).len() - 1, slash_pieces(x).last())
            =~= slash_pieces(x));
    } else {
        let b0 = b.drop_last();
        lemma_pieces_append(x, b0);
        assert((x + b).drop_last() =~= x + b0);
        assert((x + b).last() == b.last());
        assert(slash_pieces(x).last() + b =~= (slash_pieces(x).last() + b0).push(b.last()));
        assert(slash_pieces(x + b) =~= slash_pieces(x).update(
            slash_pieces(x).len() - 1,
            slash_pieces(x).last() + b,
        ));
    }
}

/// A name ending in `.` and an extension without `.`, after a non-empty stem, has that
/// extension and that stem.
pub proof fn lemma_name_with_extension(stem: Seq<char>, e: Seq<char>)
    requires
        stem.len() > 0,
        forall|i: int| 0 <= i < e.len() ==> #[trigger] e[i] != '.',
    ensures
        name_extension(stem + seq!['.'] + e) == Some(e),
        name_stem(stem + seq!['.'] + e) == stem,
{
    let t = stem + seq!['.'] + e;
    let k = stem.len() as int;
    assert(t[k] == '.');
    assert(forall|j: int| k < j < t.len() ==> t[j] == e[j - k - 1]);
    assert(exists|i: int| 0 < i < t.len() && t[i] == '.');
    let i = choose|i: int|
        0 < i < t.len() && t[i] == '.' && forall|j: int| i < j < t.len() ==> t[j] != '.';
    assert(0 < k < t.len() && t[k] == '.' && forall|j: int| k < j < t.len() ==> t[j] != '.');
    if i < k {
        assert(t[k] != '.');
    }
    if i > k {
        assert(t[i] == e[i - k - 1]);
    }
    assert(i == k);
    assert(t.subrange(k + 1, t.len() as int) =~= e);
    assert(t.subrange(0, t.len() - e.len() - 1) =~= stem);
}

/// A name with a `.` after its first character has a last such `.`.
pub proof fn lemma_last_dot(s: Seq<char>, j: int)
    requires
        0 < j < s.len(),
        s[j] == '.',
    ensures
        exists|i: int|
            0 < i < s.len() && s[i] == '.' && forall|k: int| i < k < s.len() ==> s[k] != '.',
    decreases s.len() - j,
{
    if exists|k: int| j < k < s.len() && s[k] == '.' {
        let k = choose|k: int| j < k < s.len() && s[k] == '.';
        lemma_last_dot(s, k);
    } else {
        assert(0 < j < s.len() && s[j] == '.' && forall|k: int| j < k < s.len() ==> s[k] != '.');
    }
}

/// The stem of a name with an extension is not empty, and neither stem nor extension holds
/// a character the name lacks.
pub proof fn lemma_stem_of_name(s: Seq<char>)
    requires
        single_name(s),
    ensures
        name_stem(s).len() > 0,
        name_stem(s).len() <= s.len(),
        forall|i: int| 0 <= i < name_stem(s).len() ==> #[trigger] name_stem(s)[i] == s[i],
{
    if exists|i: int| 0 < i < s.len() && s[i] == '.' {
        let j = choose|j: int| 0 < j < s.len() && s[j] == '.';
        lemma_last_dot(s, j);
        let i = choose|i: int|
            0 < i < s.len() && s[i] == '.' && forall|j: int| i < j < s.len() ==> s[j] != '.';
        let e = s.subrange(i + 1, s.len() as int);
        assert(name_extension(s) == Some(e));
        assert(e.len() == s.len() - i - 1);
        assert(name_stem(s) == s.subrange(0, s.len() - e.len() - 1));
        assert(s.len() - e.len() - 1 == i);
        assert(name_stem(s).len() == i);
    } else {
        assert(name_extension(s) is None);
        assert(name_stem(s) == s);
    }
}

/// Replacing the last piece of a path made of pieces by a plain name or `..` gives a path
/// made of pieces, rooted alike, whose last piece is that name.
#[verifier::rlimit(30)]
pub proof fn lemma_replace_last_piece(s: Seq<char>, name: Seq<char>)
    requires
        slash_path(s),
        single_name(name) || name == ".."@,
    ensures
        slash_path(before_last_piece(s) + name),
        is_rooted(before_last_piece(s) + name) == is_rooted(s),
        path_pieces(before_last_piece(s) + name) == path_pieces(s).update(
            path_pieces(s).len() - 1,
            name,
        ),
        last_piece(before_last_piece(s) + name) == name,
{
    reveal_strlit("..");
    if name == ".."@ {
        assert(name =~= seq!['.', '.']);
    }
    assert(forall|i: int| 0 <= i < name.len() ==> #[trigger] name[i] != '/');
    let b = path_body(s);
    let p = slash_pieces(b);
    let last = p.last();
    lemma_last_piece_split(b);
    let b0 = b.subrange(0, b.len() - last.len());
    lemma_pieces_append(b0, name);
    let t = before_last_piece(s) + name;
    if is_rooted(s) {
        assert(before_last_piece(s) =~= seq!['/'] + b0);
        assert(t =~= seq!['/'] + (b0 + name));
        assert(path_body(t) =~= b0 + name);
    } else {
        assert(before_last_piece(s) =~= b0);
        assert(t =~= b0 + name);
        if b0.len() > 0 {
            assert(t[0] == b[0]);
        } else {
            assert(t[0] == name[0]);
        }
    }
    let q = slash_pieces(path_body(t));
    assert(q =~= p.update(p.len() - 1, name));
    assert forall|i: int| 0 <= i < q.len() implies single_name(#[trigger] q[i]) || q[i] == ".."@ by {
        if i < p.len() - 1 {
            assert(q[i] == p[i]);
        }
    }
}

/// Replacing the last piece of a loose path that ends in a named piece by another named
/// piece gives such a path again, rooted alike, whose last piece is that name.
#[verifier::rlimit(40)]
pub proof fn lemma_replace_last_named_piece(s: Seq<char>, name: Seq<char>)
    requires
        ends_named(s),
        named_piece(name),
    ensures
        ends_named(before_last_piece(s) + name),
        is_rooted(before_last_piece(s) + name) == is_rooted(s),
        path_pieces(before_last_piece(s) + name) == path_pieces(s).update(
            path_pieces(s).len() - 1,
            name,
        ),
        last_piece(before_last_piece(s) + name) == name,
{
    reveal_strlit("..");
    if name == ".."@ {
        assert(name =~= seq!['.', '.']);
    }
    assert(name.len() > 0);
    assert(forall|i: int| 0 <= i < name.len() ==> #[trigger] name[i] != '/');
    let b = path_body(s);
    let p = slash_pieces(b);
    let last = p.last();
    lemma_last_piece_split(b);
    let b0 = b.subrange(0, b.len() - last.len());
    lemma_pieces_append(b0, name);
    let t = before_last_piece(s) + name;
    if is_rooted(s) {
        assert(before_last_piece(s) =~= seq!['/'] + b0);
        assert(t =~= seq!['/'] + (b0 + name));
        assert(path_body(t) =~= b0 + name);
        if b0.len() > 0 {
            assert(path_body(t)[0] == b[0]);
        } else {
            assert(path_body(t)[0] == name[0]);
        }
    } else {
        assert(before_last_piece(s) =~= b0);
        assert(t =~= b0 + name);
        if b0.len() > 0 {
            assert(t[0] == b[0]);
        } else {
            assert(t[0] == name[0]);
        }
    }
    let q = slash_pieces(path_body(t));
    assert(q =~= p.update(p.len() - 1, name));
    assert forall|i: int| 0 <= i < q.len() implies loose_piece(#[trigger] q[i]) by {
        if i < p.len() - 1 {
            assert(q[i] == p[i]);
        }
    }
    assert(q =~= q.drop_last() + seq![name]);
    lemma_named_of_concat(q.drop_last(), seq![name]);
    assert(named_of(seq![name]) == seq![name]) by {
        reveal(Seq::filter);
        assert(seq![name].drop_last() =~= Seq::<Seq<char>>::empty());
    }
}

/// Splitting pieces without `/` joined by `/` gives the pieces back.
pub proof fn lemma_split_join(ps: Seq<Seq<char>>)
    requires
        ps.len() >= 1,
        forall|i: int, j: int| 0 <= i < ps.len() && 0 <= j < ps[i].len() ==> #[trigger] ps[i][j] != '/',
    ensures
        slash_pieces(join_pieces(ps)) == ps,
    decreases ps.len(),
{
    reveal_strlit("/");
    let e = Seq::<char>::empty();
    if ps.len() == 1 {
        assert forall|j: int| 0 <= j < ps[0].len() implies #[trigger] ps[0][j] != '/' by {
            assert(ps[0][j] != '/');
        }
        lemma_pieces_append(e, ps[0]);
        assert(e + ps[0] =~= ps[0]);
        assert(slash_pieces(e) =~= seq![e]);
        assert(slash_pieces(ps[0]) =~= ps);
    } else {
        let init = ps.drop_last();
        let last = ps.last();
        lemma_split_join(init);
        let x = join_pieces(init);
        let xs = x + "/"@;
        assert(xs.drop_last() =~= x);
        assert(xs.last() == '/');
        assert(slash_pieces(xs) == init.push(e));
        assert forall|j: int| 0 <= j < last.len() implies #[trigger] last[j] != '/' by {
            assert(ps[ps.len() - 1][j] != '/');
        }
        lemma_pieces_append(xs, last);
        assert(e + last =~= last);
        assert(join_pieces(ps) == xs + last);
        assert(init.push(e).update(init.len() as int, e + last) =~= ps);
    }
}

/// Joining two non-empty lists of pieces is joining each and putting `/` between.
pub proof fn lemma_join_concat(a: Seq<Seq<char>>, b: Seq<Seq<char>>)
    requires
        a.len() >= 1,
        b.len() >= 1,
    ensures
        join_pieces(a + b) == join_pieces(a) + "/"@ + join_pieces(b),
    decreases b.len(),
{
    if b.len() == 1 {
        assert((a + b).drop_last() =~= a);
        assert((a + b).last() == b[0]);
    } else {
        lemma_join_concat(a, b.drop_last());
        assert((a + b).drop_last() =~= a + b.drop_last());
        assert((a + b).last() == b.last());
        assert(join_pieces(a + b) =~= join_pieces(a) + "/"@ + join_pieces(b));
    }
}

/// Whether `Path::is_absolute` holds of a path. A relative path of names and `..` joined by
/// `/` is not absolute on any platform: it has neither a root nor a prefix, which the
/// documentation requires (a root on Unix, a prefix and a root on Windows); nor is such a
/// path with `.` pieces, repeated separators or a trailing `/`. For other paths nothing is
/// stated.
#[verifier::external_body]
pub(crate) fn path_is_absolute(path: &str) -> (r: bool)
    ensures
        single_name(path@) ==> !r,
        relative_path(path@) ==> !r,
        loose_path(path@) && !is_rooted(path@) ==> !r,
{
    std::path::Path::new(path).is_absolute()
}

/// A component of a path as `std::path::Component` names it; a normal component keeps its
/// text.
pub enum PathPart {
    Prefix,
    RootDir,
    CurDir,
    ParentDir,
    Normal(String),
}

/// The components `Path::components` yields, normal ones converted lossily to text. A
/// single plain name is one normal component holding the name. A relative path of names and
/// `..` joined by `/` yields one component per piece, in order: `..` as the parent
/// component, each name as a normal one (the documentation: `/` separates components on
/// every platform, and apart from `.` and repeated separators, which such a path lacks, no
/// normalization takes place). A path of such pieces after a leading `/` yields the root
/// component first and then one component per piece (without a prefix, which needs a `:` or
/// a `\`, the root is the first component on every platform). With `.` pieces, repeated
/// separators or a trailing `/`, those are normalized away as the documentation describes,
/// except that a relative path beginning with the piece `.` yields the current-directory
/// component first. For other paths nothing is stated.
#[verifier::external_body]
pub(crate) fn path_components(path: &str) -> (r: Vec<PathPart>)
    ensures
        single_name(path@) ==> r@.len() == 1 && match r@[0] {
            PathPart::Normal(name) => name@ == path@,
            _ => false,
        },
        relative_path(path@) ==> r@.len() == slash_pieces(path@).len() && forall|i: int|
            0 <= i < r@.len() ==> part_for_piece(#[trigger] r@[i], slash_pieces(path@)[i]),
        slash_path(path@) && is_rooted(path@) ==> r@.len() == path_pieces(path@).len() + 1
            && r@[0] is RootDir && forall|i: int|
            0 <= i < path_pieces(path@).len() ==> part_for_piece(
                r@[i + 1],
                #[trigger] path_pieces(path@)[i],
            ),
        loose_path(path@) && !is_rooted(path@) ==> r@.len() == named_pieces(path@).len()
            + cur_dir_lead(path@) && (cur_dir_lead(path@) == 1 ==> r@[0] is CurDir) && forall|i: int|
            0 <= i < named_pieces(path@).len() ==> part_for_piece(
                r@[i + cur_dir_lead(path@)],
                #[trigger] named_pieces(path@)[i],
            ),
        loose_path(path@) && is_rooted(path@) ==> r@.len() == named_pieces(path@).len() + 1
            && r@[0] is RootDir && forall|i: int|
            0 <= i < named_pieces(path@).len() ==> part_for_piece(
                r@[i + 1],
                #[trigger] named_pieces(path@)[i],
            ),
{
    let mut parts = Vec::new();
    for part in std::path::Path::new(path).components() {
        parts.push(match part {
            std::path::Component::Prefix(_) => PathPart::Prefix,
            std::path::Component::RootDir => PathPart::RootDir,
            std::path::Component::CurDir => PathPart::CurDir,
            std::path::Component::ParentDir => PathPart::ParentDir,
            std::path::Component::Normal(name) => PathPart::Normal(name.to_string_lossy().into_owned()),
        });
    }
    parts
}

/// Whether a list of path components holds a `..` component.
pub fn has_parent_part(parts: &Vec<PathPart>) -> (r: bool)
    ensures
        r == exists|i: int| 0 <= i < parts@.len() && #[trigger] parts@[i] is ParentDir,
{
    let mut i: usize = 0;
    while i < parts.len()
        invariant
            i <= parts@.len(),
            forall|j: int| 0 <= j < i ==> !(#[trigger] parts@[j] is ParentDir),
        decreases parts@.len() - i,
    {
        match &parts[i] {
            PathPart::ParentDir => return true,
            _ => {},
        }
        i = i + 1;
    }
    false
}

/// Whether the platform splits a path into components of which one is `..`. A single
/// plain name has none; a relative path of names and `..` joined by `/` has one exactly
/// when one of its pieces is `..`.
pub fn path_has_parent_component(path: &str) -> (r: bool)
    ensures
        single_name(path@) ==> !r,
        relative_path(path@) ==> r == exists|i: int|
            0 <= i < slash_pieces(path@).len() && #[trigger] slash_pieces(path@)[i] == ".."@,
        slash_path(path@) ==> r == exists|i: int|
            0 <= i < path_pieces(path@).len() && #[trigger] path_pieces(path@)[i] == ".."@,
        loose_path(path@) ==> r == loose_climbs(path@),
{
    let parts = path_components(path);
    let r = has_parent_part(&parts);
    proof {
        if relative_path(path@) {
            let pieces = slash_pieces(path@);
            if r {
                let i = choose|i: int| 0 <= i < parts@.len() && #[trigger] parts@[i] is ParentDir;
                assert(part_for_piece(parts@[i], pieces[i]));
                assert(pieces[i] == ".."@);
            }
            if exists|i: int| 0 <= i < pieces.len() && #[trigger] pieces[i] == ".."@ {
                let i = choose|i: int| 0 <= i < pieces.len() && #[trigger] pieces[i] == ".."@;
                assert(part_for_piece(parts@[i], pieces[i]));
                assert(parts@[i] is ParentDir);
            }
        }
        if loose_path(path@) {
            let named = named_pieces(path@);
            let lead: int = if is_rooted(path@) { 1 } else { cur_dir_lead(path@) };
            assert(forall|i: int| 0 <= i < named.len() ==> part_for_piece(
                parts@[i + lead],
                #[trigger] named[i],
            ));
            if r {
                let i = choose|i: int| 0 <= i < parts@.len() && #[trigger] parts@[i] is ParentDir;
                assert(i >= lead);
                assert(part_for_piece(parts@[(i - lead) + lead], named[i - lead]));
                assert(named[i - lead] == ".."@);
            }
            if loose_climbs(path@) {
                let i = choose|i: int| 0 <= i < named.len() && #[trigger] named[i] == ".."@;
                assert(part_for_piece(parts@[i + lead], named[i]));
                assert(parts@[i + lead] is ParentDir);
            }
        }
        if slash_path(path@) && is_rooted(path@) {
            let pieces = path_pieces(path@);
            if r {
                let i = choose|i: int| 0 <= i < parts@.len() && #[trigger] parts@[i] is ParentDir;
                assert(i != 0);
                assert(part_for_piece(parts@[(i - 1) + 1], pieces[i - 1]));
                assert(pieces[i - 1] == ".."@);
            }
            if exists|i: int| 0 <= i < pieces.len() && #[trigger] pieces[i] == ".."@ {
                let i = choose|i: int| 0 <= i < pieces.len() && #[trigger] pieces[i] == ".."@;
                assert(part_for_piece(parts@[i + 1], pieces[i]));
                assert(parts@[i + 1] is ParentDir);
            }
        }
    }
    r
}

/// How many components the platform splits a path into. A single plain name is one; a
/// relative path of names and `..` joined by `/` has one per piece.
pub fn path_component_count(path: &str) -> (r: usize)
    ensures
        single_name(path@) ==> r == 1,
        relative_path(path@) ==> r == slash_pieces(path@).len(),
        slash_path(path@) && is_rooted(path@) ==> r == path_pieces(path@).len() + 1,
        loose_path(path@) && !is_rooted(path@) ==> r == named_pieces(path@).len() + cur_dir_lead(
            path@,
        ),
{
    path_components(path).len()
}

/// The rest of a path after a base, as `Path::strip_prefix` finds it (`None` when the base
/// is not a prefix of the path's components), converted lossily to text. When both are
/// paths of names and `..` joined by `/` after an optional leading `/`, the base must be
/// rooted alike and its pieces must begin the path's; the rest is then the path's remaining
/// pieces joined by `/` (the remaining slice of the path's text). When both are such paths
/// with `.` pieces, repeated separators or a trailing `/` allowed, the base must begin the
/// path component by component (the documentation compares components, which normalize
/// those away, keeping a leading `.` of a relative path); the rest is the slice of the
/// path's text from its first remaining component to its last, so its pieces are the
/// path's, beginning with a named one, and its named pieces are the path's after the
/// base's. For other paths nothing is stated: how they split into components depends on the
/// platform.
#[verifier::external_body]
pub(crate) fn path_strip_prefix(path: &str, base: &str) -> (r: Option<String>)
    ensures
        slash_path(path@) && slash_path(base@) ==> match r {
            Some(rest) => stripped_rest(path@, base@) == Some(rest@),
            None => stripped_rest(path@, base@) is None,
        },
        loose_path(path@) && loose_path(base@) ==> match r {
            Some(rest) => loose_prefix(path@, base@) && stripped_form(path@, base@, rest@),
            None => !loose_prefix(path@, base@),
        },
{
    match std::path::Path::new(path).strip_prefix(base) {
        Ok(rest) => Some(rest.to_string_lossy().into_owned()),
        Err(_) => None,
    }
}

} // verus!
