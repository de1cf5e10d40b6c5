//! Editor-wide state shared by the scene editor: its enumerations and the bookkeeping of the
//! project's scene list.

use crate::text::{
    append_decimal, chars_of, decimal, is_blank, is_white_space, lemma_trimmed_empty,
    str_eq, str_is_blank, string_from_chars, trim_str, trimmed,
};
use vstd::prelude::*;

verus! {

broadcast use vstd::string::group_string_axioms;

/// Rectangular collider attached to a game object.
#[derive(Clone, Copy, PartialEq, Eq, Structural, Debug)]
pub struct ColliderConfig {
    pub is_dynamic: bool,
}

/// Which corner handle is being dragged while resizing an object.
#[derive(Clone, Copy, PartialEq, Eq, Structural, Debug)]
pub enum ResizeHandle {
    TopLeft,
    TopRight,
    BottomLeft,
    BottomRight,
}

/// Whether the blueprint editor is shown as an IDE tab or a separate window.
#[derive(Clone, Copy, PartialEq, Eq, Structural, Debug)]
pub enum BlueprintEditorMode {
    IdeTabs,
    SeparateWindow,
}

/// Editor action that resumes after the unsaved-changes dialog closes.
#[derive(Clone, Copy, PartialEq, Eq, Structural, Debug)]
pub enum PendingEditorAction {
    NewProject,
    ExitEditor,
}

/// The name shown for the active scene: the scene's own name, or "场景1" when the active index
/// points past the scene list.
pub fn active_scene_name(names: &Vec<String>, active_index: usize) -> (r: String)
    ensures
        r@ == if active_index < names@.len() {
            names@[active_index as int]@
        } else {
            "场景1"@
        },
{
    if active_index < names.len() {
        names[active_index].clone()
    } else {
        "场景1".to_string()
    }
}

/// Writes the canvas's scene back into the project's scene list: over the active scene, or
/// appended (and made active) when the active index points past the list. Either way the
/// stored scene is the active one afterwards.
pub fn store_active_scene<S>(scenes: &mut Vec<S>, active_index: &mut usize, scene: S)
    ensures
        *old(active_index) < old(scenes)@.len() ==> final(scenes)@ == old(scenes)@.update(
            *old(active_index) as int,
            scene,
        ) && *final(active_index) == *old(active_index),
        *old(active_index) >= old(scenes)@.len() ==> final(scenes)@ == old(scenes)@.push(scene)
            && *final(active_index) == old(scenes)@.len(),
        *final(active_index) < final(scenes)@.len(),
        final(scenes)@[*final(active_index) as int] == scene,
{
    if *active_index < scenes.len() {
        scenes.set(*active_index, scene);
    } else {
        scenes.push(scene);
        *active_index = scenes.len() - 1;
    }
}

/// Whether the editor switches to a scene: only to another scene that exists.
pub fn may_switch_scene(scene_count: usize, active_index: usize, target: usize) -> (r: bool)
    ensures
        r == (target < scene_count && target != active_index),
{
    target < scene_count && target != active_index
}

/// The name a new scene gets: the requested name without surrounding white space, or
/// "场景N" numbered after the existing scenes when the request is blank.
pub open spec fn new_scene_name(requested: Seq<char>, scene_count: nat) -> Seq<char> {
    if is_blank(requested) {
        "场景"@ + decimal(scene_count + 1)
    } else {
        trimmed(requested)
    }
}

/// Names a scene added to a project that has `scene_count` scenes; the name is never blank.
pub fn added_scene_name(requested: &str, scene_count: usize) -> (r: String)
    requires
        scene_count < usize::MAX,
    ensures
        r@ == new_scene_name(requested@, scene_count as nat),
        !is_blank(r@),
{
    proof {
        lemma_trimmed_empty(requested@);
    }
    if str_is_blank(requested) {
        let mut v = chars_of("场景");
        append_decimal(&mut v, (scene_count as u64) + 1);
        proof {
            reveal_strlit("场景");
            assert(!is_white_space(v@[0]));
        }
        string_from_chars(&v)
    } else {
        let t = trim_str(requested);
        proof {
            lemma_trimmed_empty(t@);
            assert(t@.len() > 0);
            assert(!is_blank(t@)) by {
                lemma_trimmed_is_trimmed(requested@);
            }
        }
        string_from_chars(&t)
    }
}

/// A trimmed, non-empty sequence does not start with white space.
proof fn lemma_trimmed_is_trimmed(s: Seq<char>)
    requires
        trimmed(s).len() > 0,
    ensures
        !is_blank(trimmed(s)),
{
    lemma_trimmed_empty(s);
    assert(!is_blank(s));
    let t = trimmed(s);
    crate::text::lemma_trimmed_bounds(s);
    assert(!is_white_space(t[0]));
}

/// Whether the project differs from its last saved snapshot; a project that was never
/// saved or opened has an empty snapshot and counts as unchanged.
pub fn unsaved_changes(saved_snapshot: &str, current_snapshot: &str) -> (r: bool)
    ensures
        r == (saved_snapshot@.len() > 0 && saved_snapshot@ != current_snapshot@),
{
    let saved = chars_of(saved_snapshot);
    saved.len() > 0 && !str_eq(saved_snapshot, current_snapshot)
}

/// Whether an object survives the frame's destroy commands.
pub open spec fn survives(id: u64, destroyed: Seq<u64>) -> bool {
    !destroyed.contains(id)
}

/// The largest id among the surviving objects, 0 when none survives.
pub open spec fn largest_surviving(ids: Seq<u64>, destroyed: Seq<u64>) -> nat
    decreases ids.len(),
{
    if ids.len() == 0 {
        0
    } else {
        let rest = largest_surviving(ids.drop_last(), destroyed);
        if survives(ids.last(), destroyed) && ids.last() > rest {
            ids.last() as nat
        } else {
            rest
        }
    }
}

/// The position of the first surviving object with an id, the template a spawn copies.
pub open spec fn template_index(ids: Seq<u64>, destroyed: Seq<u64>, template: u64) -> Option<int> {
    if exists|i: int| 0 <= i < ids.len() && ids[i] == template && survives(ids[i], destroyed) {
        Some(
            choose|i: int|
                0 <= i < ids.len() && ids[i] == template && survives(ids[i], destroyed) && forall|j: int|
                    0 <= j < i ==> ids[j] != template,
        )
    } else {
        None
    }
}

/// The spawns a frame performs: for each spawn command in order whose template survives,
/// the command's position, the template's position and the new object's id, counting up
/// from one above the largest surviving id.
pub open spec fn spawn_plan(ids: Seq<u64>, destroyed: Seq<u64>, templates: Seq<u64>) -> Seq<
    (int, int, nat),
>
    decreases templates.len(),
{
    if templates.len() == 0 {
        seq![]
    } else {
        let before = spawn_plan(ids, destroyed, templates.drop_last());
        match template_index(ids, destroyed, templates.last()) {
            Some(i) => before.push(
                (templates.len() - 1, i, largest_surviving(ids, destroyed) + 1 + before.len()),
            ),
            None => before,
        }
    }
}

/// The largest surviving id of the objects.
fn largest_surviving_id(ids: &Vec<u64>, destroyed: &Vec<u64>) -> (r: u64)
    ensures
        r == largest_surviving(ids@, destroyed@),
{
    let mut largest: u64 = 0;
    let mut i: usize = 0;
    while i < ids.len()
        invariant
            i <= ids@.len(),
            largest == largest_surviving(ids@.take(i as int), destroyed@),
        decreases ids@.len() - i,
    {
        proof {
            assert(ids@.take(i + 1).drop_last() =~= ids@.take(i as int));
        }
        if !crate::blueprint::model::contains_u64(destroyed.as_slice(), ids[i]) && ids[i] > largest {
            largest = ids[i];
        }
        i = i + 1;
    }
    assert(ids@.take(i as int) =~= ids@);
    largest
}

/// The first surviving object with an id.
fn find_template(ids: &Vec<u64>, destroyed: &Vec<u64>, template: u64) -> (r: Option<usize>)
    ensures
        match r {
            Some(i) => template_index(ids@, destroyed@, template) == Some(i as int),
            None => template_index(ids@, destroyed@, template) is None,
        },
{
    if crate::blueprint::model::contains_u64(destroyed.as_slice(), template) {
        return None;
    }
    let mut i: usize = 0;
    while i < ids.len()
        invariant
            i <= ids@.len(),
            !destroyed@.contains(template),
            forall|j: int| 0 <= j < i ==> ids@[j] != template,
        decreases ids@.len() - i,
    {
        if ids[i] == template {
            proof {
                let k = i as int;
                assert(0 <= k < ids@.len() && ids@[k] == template && survives(ids@[k], destroyed@));
                let c = choose|c: int|
                    0 <= c < ids@.len() && ids@[c] == template && survives(ids@[c], destroyed@)
                        && forall|j: int| 0 <= j < c ==> ids@[j] != template;
                assert(0 <= k < ids@.len() && ids@[k] == template && survives(ids@[k], destroyed@)
                    && forall|j: int| 0 <= j < k ==> ids@[j] != template);
                if c < k {
                } else if c > k {
                    assert(ids@[k] != template);
                }
            }
            return Some(i);
        }
        i = i + 1;
    }
    None
}

/// Plans the objects a frame spawns after its destroy commands: each spawn command whose
/// template object survives copies it under a new id, one above the largest surviving id and
/// counting up; returns the command's position, the template's position and the new id for
/// each spawn, in order.
pub fn plan_spawns(ids: &Vec<u64>, destroyed: &Vec<u64>, templates: &Vec<u64>) -> (r: Vec<
    (usize, usize, u64),
>)
    requires
        largest_surviving(ids@, destroyed@) + templates@.len() < u64::MAX,
    ensures
        r@.len() == spawn_plan(ids@, destroyed@, templates@).len(),
        forall|k: int|
            0 <= k < r@.len() ==> (#[trigger] r@[k]).0 as int == spawn_plan(ids@, destroyed@, templates@)[k].0
                && r@[k].1 as int == spawn_plan(ids@, destroyed@, templates@)[k].1
                && r@[k].2 as nat == spawn_plan(ids@, destroyed@, templates@)[k].2,
{
    let base = largest_surviving_id(ids, destroyed);
    let mut plan: Vec<(usize, usize, u64)> = Vec::new();
    let mut t: usize = 0;
    while t < templates.len()
        invariant
            t <= templates@.len(),
            base == largest_surviving(ids@, destroyed@),
            base + templates@.len() < u64::MAX,
            plan@.len() == spawn_plan(ids@, destroyed@, templates@.take(t as int)).len(),
            plan@.len() <= t,
            forall|k: int|
                0 <= k < plan@.len() ==> (#[trigger] plan@[k]).0 as int == spawn_plan(
                    ids@,
                    destroyed@,
                    templates@.take(t as int),
                )[k].0 && plan@[k].1 as int == spawn_plan(ids@, destroyed@, templates@.take(t as int))[k].1
                    && plan@[k].2 as nat == spawn_plan(ids@, destroyed@, templates@.take(t as int))[k].2,
        decreases templates@.len() - t,
    {
        proof {
            assert(templates@.take(t + 1).drop_last() =~= templates@.take(t as int));
            assert(templates@.take(t + 1).last() == templates@[t as int]);
        }
        match find_template(ids, destroyed, templates[t]) {
            Some(i) => {
                let id = base + 1 + plan.len() as u64;
                plan.push((t, i, id));
            },
            None => {},
        }
        t = t + 1;
    }
    assert(templates@.take(t as int) =~= templates@);
    plan
}

/// Every surviving id is at most the largest surviving id.
proof fn lemma_largest_surviving_bound(ids: Seq<u64>, destroyed: Seq<u64>)
    ensures
        forall|i: int|
            0 <= i < ids.len() && survives(#[trigger] ids[i], destroyed) ==> ids[i] <= largest_surviving(
                ids,
                destroyed,
            ),
    decreases ids.len(),
{
    if ids.len() > 0 {
        lemma_largest_surviving_bound(ids.drop_last(), destroyed);
        assert forall|i: int|
            0 <= i < ids.len() && survives(#[trigger] ids[i], destroyed) implies ids[i] <= largest_surviving(
                ids,
                destroyed,
            ) by {
            if i < ids.len() - 1 {
                assert(ids.drop_last()[i] == ids[i]);
            }
        }
    }
}

/// The template a spawn copies is a surviving object with the template's id, the first
/// object with that id; there is one exactly when some surviving object has the id.
proof fn lemma_template_index(ids: Seq<u64>, destroyed: Seq<u64>, template: u64)
    ensures
        template_index(ids, destroyed, template) is Some <==> exists|i: int|
            0 <= i < ids.len() && ids[i] == template && survives(ids[i], destroyed),
        template_index(ids, destroyed, template) matches Some(i) ==> 0 <= i < ids.len() && ids[i]
            == template && survives(ids[i], destroyed),
{
    if exists|i: int| 0 <= i < ids.len() && ids[i] == template && survives(ids[i], destroyed) {
        let w = choose|i: int| 0 <= i < ids.len() && ids[i] == template && survives(ids[i], destroyed);
        let m = lemma_first_with_template(ids, template, w);
        assert(survives(ids[m], destroyed));
        assert(0 <= m < ids.len() && ids[m] == template && survives(ids[m], destroyed) && forall|j: int|
            0 <= j < m ==> ids[j] != template);
    }
}

/// From an object with an id, the first object with that id.
proof fn lemma_first_with_template(ids: Seq<u64>, template: u64, w: int) -> (m: int)
    requires
        0 <= w < ids.len(),
        ids[w] == template,
    ensures
        0 <= m <= w,
        ids[m] == template,
        forall|j: int| 0 <= j < m ==> ids[j] != template,
    decreases w,
{
    if exists|j: int| 0 <= j < w && ids[j] == template {
        let j = choose|j: int| 0 <= j < w && ids[j] == template;
        lemma_first_with_template(ids, template, j)
    } else {
        w
    }
}

/// A frame's spawns copy surviving templates under fresh ids: each planned spawn belongs to
/// a spawn command, in command order, and copies a surviving object carrying the command's
/// template id; the new ids count up from one above the largest surviving id, so each is
/// larger than every surviving id and no two are alike; and every command whose template
/// survives is planned.
#[verifier::rlimit(40)]
pub proof fn law_spawns_copy_surviving_templates(
    ids: Seq<u64>,
    destroyed: Seq<u64>,
    templates: Seq<u64>,
)
    ensures
        forall|k: int|
            #![trigger spawn_plan(ids, destroyed, templates)[k]]
            0 <= k < spawn_plan(ids, destroyed, templates).len() ==> {
                let e = spawn_plan(ids, destroyed, templates)[k];
                &&& 0 <= e.0 < templates.len()
                &&& 0 <= e.1 < ids.len()
                &&& ids[e.1] == templates[e.0]
                &&& survives(ids[e.1], destroyed)
                &&& e.2 == largest_surviving(ids, destroyed) + 1 + k
            },
        forall|k: int, i: int|
            0 <= k < spawn_plan(ids, destroyed, templates).len() && 0 <= i < ids.len() && survives(
                #[trigger] ids[i],
                destroyed,
            ) ==> (#[trigger] spawn_plan(ids, destroyed, templates)[k]).2 > ids[i],
        forall|k: int, l: int|
            0 <= k < l < spawn_plan(ids, destroyed, templates).len() ==> (#[trigger] spawn_plan(
                ids,
                destroyed,
                templates,
            )[k]).0 < (#[trigger] spawn_plan(ids, destroyed, templates)[l]).0 && spawn_plan(
                ids,
                destroyed,
                templates,
            )[k].2 < spawn_plan(ids, destroyed, templates)[l].2,
        forall|c: int|
            0 <= c < templates.len() && (exists|i: int|
                0 <= i < ids.len() && ids[i] == #[trigger] templates[c] && survives(ids[i], destroyed))
                ==> exists|k: int|
                0 <= k < spawn_plan(ids, destroyed, templates).len() && (#[trigger] spawn_plan(
                    ids,
                    destroyed,
                    templates,
                )[k]).0 == c,
    decreases templates.len(),
{
    lemma_largest_surviving_bound(ids, destroyed);
    if templates.len() > 0 {
        let init = templates.drop_last();
        law_spawns_copy_surviving_templates(ids, destroyed, init);
        let before = spawn_plan(ids, destroyed, init);
        let plan = spawn_plan(ids, destroyed, templates);
        let t = templates.last();
        lemma_template_index(ids, destroyed, t);
        assert forall|k: int| 0 <= k < before.len() implies #[trigger] plan[k] == before[k] by {
            match template_index(ids, destroyed, t) {
                Some(i) => {},
                None => {},
            }
        }
        assert forall|c: int| 0 <= c < init.len() implies #[trigger] init[c] == templates[c] by {}
        assert forall|k: int|
            #![trigger plan[k]]
            0 <= k < plan.len() implies {
                let e = plan[k];
                &&& 0 <= e.0 < templates.len()
                &&& 0 <= e.1 < ids.len()
                &&& ids[e.1] == templates[e.0]
                &&& survives(ids[e.1], destroyed)
                &&& e.2 == largest_surviving(ids, destroyed) + 1 + k
            } by {
            if k < before.len() {
                assert(plan[k] == before[k]);
                assert(init[before[k].0] == templates[before[k].0]);
            }
        }
        assert forall|k: int, l: int|
            0 <= k < l < plan.len() implies (#[trigger] plan[k]).0 < (#[trigger] plan[l]).0 && plan[k].2
                < plan[l].2 by {
            assert(plan[k] == before[k]);
            if l < before.len() {
                assert(plan[l] == before[l]);
            }
        }
        assert forall|c: int|
            0 <= c < templates.len() && (exists|i: int|
                0 <= i < ids.len() && ids[i] == #[trigger] templates[c] && survives(ids[i], destroyed))
                implies exists|k: int| 0 <= k < plan.len() && (#[trigger] plan[k]).0 == c by {
            if c < init.len() {
                assert(init[c] == templates[c]);
                let k = choose|k: int| 0 <= k < before.len() && (#[trigger] before[k]).0 == c;
                assert(plan[k] == before[k]);
            } else {
                assert(plan[plan.len() - 1].0 == c);
            }
        }
    }
}

} // verus!
