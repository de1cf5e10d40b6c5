//! The command line shared by the editor and the game runtime: the editor starts the runtime
//! with a package, an optional scene, the editor language and optional global variables; the
//! runtime reads them back.

use crate::localization::Language;
use crate::text::{clone_string, str_eq, to_owned_string};
use vstd::prelude::*;

verus! {

broadcast use vstd::string::group_string_axioms;

/// Flag that starts the game runtime; the package path follows it.
pub const RUNTIME_FLAG: &'static str = "--runtime";

/// Flag naming the scene to start with.
pub const SCENE_FLAG: &'static str = "--scene";

/// Flag carrying the editor language code.
pub const LOCALE_FLAG: &'static str = "--locale";

/// Flag carrying the global variables as JSON.
pub const GLOBALS_FLAG: &'static str = "--globals";

/// The texts of a list of arguments.
pub open spec fn argument_views(arguments: Seq<String>) -> Seq<Seq<char>> {
    arguments.map_values(|a: String| a@)
}

/// The value after the first occurrence of `flag` at position `i` or later that has a value
/// behind it.
pub open spec fn flag_value_from(arguments: Seq<Seq<char>>, flag: Seq<char>, i: int) -> Option<
    Seq<char>,
>
    decreases arguments.len() - i,
{
    if i < 0 || i + 1 >= arguments.len() {
        None
    } else if arguments[i] == flag {
        Some(arguments[i + 1])
    } else {
        flag_value_from(arguments, flag, i + 1)
    }
}

/// The value that follows the first occurrence of a flag that has a value behind it.
pub open spec fn flag_value(arguments: Seq<Seq<char>>, flag: Seq<char>) -> Option<Seq<char>> {
    flag_value_from(arguments, flag, 0)
}

/// Finds the value written right after the first occurrence of `flag`.
pub fn argument_after(arguments: &Vec<String>, flag: &str) -> (r: Option<String>)
    ensures
        match r {
            Some(v) => flag_value(argument_views(arguments@), flag@) == Some(v@),
            None => flag_value(argument_views(arguments@), flag@) is None,
        },
{
    let ghost views = argument_views(arguments@);
    let mut i: usize = 0;
    while i < arguments.len()
        invariant
            i <= arguments@.len(),
            views == argument_views(arguments@),
            flag_value(views, flag@) == flag_value_from(views, flag@, i as int),
        decreases arguments@.len() - i,
    {
        if i + 1 < arguments.len() && str_eq(arguments[i].as_str(), flag) {
            return Some(clone_string(&arguments[i + 1]));
        }
        i = i + 1;
    }
    None
}

/// The language a runtime command line asks for, if it names one.
pub fn runtime_locale(arguments: &Vec<String>) -> (r: Option<Language>)
    ensures
        r == match flag_value(argument_views(arguments@), LOCALE_FLAG@) {
            Some(code) => Some(Language::from_code_text(code)),
            None => None,
        },
{
    match argument_after(arguments, LOCALE_FLAG) {
        Some(code) => Some(Language::from_code(code.as_str())),
        None => None,
    }
}

/// The package a process command line asks the runtime to run: the argument after
/// `--runtime` when that flag comes first after the program's own path.
pub open spec fn runtime_package_of(arguments: Seq<Seq<char>>) -> Option<Seq<char>> {
    if arguments.len() >= 3 && arguments[1] == RUNTIME_FLAG@ {
        Some(arguments[2])
    } else {
        None
    }
}

/// Reads the runtime package from a process command line (the program's own path first).
pub fn runtime_package(arguments: &Vec<String>) -> (r: Option<String>)
    ensures
        match r {
            Some(p) => runtime_package_of(argument_views(arguments@)) == Some(p@),
            None => runtime_package_of(argument_views(arguments@)) is None,
        },
{
    if arguments.len() >= 3 && str_eq(arguments[1].as_str(), RUNTIME_FLAG) {
        Some(clone_string(&arguments[2]))
    } else {
        None
    }
}

/// The arguments the editor starts the runtime with, after the program's own path.
pub open spec fn launch_arguments(
    package: Seq<char>,
    scene: Option<Seq<char>>,
    language: Language,
    globals: Option<Seq<char>>,
) -> Seq<Seq<char>> {
    seq![RUNTIME_FLAG@, package] + match scene {
        Some(s) => seq![SCENE_FLAG@, s],
        None => Seq::<Seq<char>>::empty(),
    } + seq![LOCALE_FLAG@, language.code_text()] + match globals {
        Some(g) => seq![GLOBALS_FLAG@, g],
        None => Seq::<Seq<char>>::empty(),
    }
}

/// Builds the runtime's arguments: the package, the scene to start with when one is given,
/// the editor language, and the global variables when they are carried over.
pub fn runtime_arguments(
    package: &str,
    scene: Option<&str>,
    language: Language,
    globals: Option<&str>,
) -> (r: Vec<String>)
    ensures
        argument_views(r@) == launch_arguments(
            package@,
            match scene {
                Some(s) => Some(s@),
                None => None,
            },
            language,
            match globals {
                Some(g) => Some(g@),
                None => None,
            },
        ),
{
    let mut r: Vec<String> = Vec::new();
    r.push(to_owned_string(RUNTIME_FLAG));
    r.push(to_owned_string(package));
    match scene {
        Some(s) => {
            r.push(to_owned_string(SCENE_FLAG));
            r.push(to_owned_string(s));
        },
        None => {},
    }
    r.push(to_owned_string(LOCALE_FLAG));
    r.push(to_owned_string(language.code()));
    match globals {
        Some(g) => {
            r.push(to_owned_string(GLOBALS_FLAG));
            r.push(to_owned_string(g));
        },
        None => {},
    }
    proof {
        let expected = launch_arguments(
            package@,
            match scene {
                Some(s) => Some(s@),
                None => None,
            },
            language,
            match globals {
                Some(g) => Some(g@),
                None => None,
            },
        );
        assert(argument_views(r@) =~= expected);
    }
    r
}

/// Which scene the runtime starts: the first one with the requested name, else the first
/// scene; none when the project has no scene.
pub fn scene_to_run(names: &Vec<String>, requested: &str) -> (r: Option<usize>)
    ensures
        match r {
            Some(i) => i < names@.len() && if names@[i as int]@ == requested@ {
                forall|j: int| 0 <= j < i ==> #[trigger] names@[j]@ != requested@
            } else {
                i == 0 && forall|j: int| 0 <= j < names@.len() ==> #[trigger] names@[j]@ != requested@
            },
            None => names@.len() == 0,
        },
{
    let mut i: usize = 0;
    while i < names.len()
        invariant
            i <= names@.len(),
            forall|j: int| 0 <= j < i ==> #[trigger] names@[j]@ != requested@,
        decreases names@.len() - i,
    {
        if str_eq(names[i].as_str(), requested) {
            return Some(i);
        }
        i = i + 1;
    }
    if names.len() == 0 {
        None
    } else {
        Some(0)
    }
}

/// The runtime reads back what the editor passes it: the package, the scene and the language,
/// provided neither the program's path nor the package (nor the scene, for the language) is
/// itself spelled like the flag being looked for.
pub proof fn law_launch_arguments_round_trip(
    program: Seq<char>,
    package: Seq<char>,
    scene: Option<Seq<char>>,
    language: Language,
    globals: Option<Seq<char>>,
)
    requires
        program != SCENE_FLAG@,
        program != LOCALE_FLAG@,
        package != SCENE_FLAG@,
        package != LOCALE_FLAG@,
        match scene {
            Some(s) => s != LOCALE_FLAG@,
            None => true,
        },
    ensures
        runtime_package_of(seq![program] + launch_arguments(package, scene, language, globals))
            == Some(package),
        flag_value(seq![program] + launch_arguments(package, scene, language, globals), SCENE_FLAG@)
            == scene,
        flag_value(seq![program] + launch_arguments(package, scene, language, globals), LOCALE_FLAG@)
            == Some(language.code_text()),
{
    reveal_strlit("--runtime");
    reveal_strlit("--scene");
    reveal_strlit("--locale");
    reveal_strlit("--globals");
    let args = seq![program] + launch_arguments(package, scene, language, globals);
    assert(RUNTIME_FLAG@ != SCENE_FLAG@) by {
        assert(RUNTIME_FLAG@.len() != SCENE_FLAG@.len());
    }
    assert(RUNTIME_FLAG@ != LOCALE_FLAG@) by {
        assert(RUNTIME_FLAG@[2] != LOCALE_FLAG@[2]);
    }
    assert(SCENE_FLAG@ != LOCALE_FLAG@) by {
        assert(SCENE_FLAG@[2] != LOCALE_FLAG@[2]);
    }
    assert(LOCALE_FLAG@ != GLOBALS_FLAG@) by {
        assert(LOCALE_FLAG@[2] != GLOBALS_FLAG@[2]);
    }
    assert(SCENE_FLAG@ != GLOBALS_FLAG@) by {
        assert(SCENE_FLAG@[2] != GLOBALS_FLAG@[2]);
    }
    assert(language.code_text() != SCENE_FLAG@ && language.code_text() != LOCALE_FLAG@) by {
        reveal_strlit("zh-CN");
        reveal_strlit("en-US");
        assert(language.code_text()[0] != SCENE_FLAG@[0]);
    }
    assert(args[0] == program);
    assert(args[1] == RUNTIME_FLAG@);
    assert(args[2] == package);
    match scene {
        Some(s) => {
            assert(args[3] == SCENE_FLAG@);
            assert(args[4] == s);
            assert(args[5] == LOCALE_FLAG@);
            assert(args[6] == language.code_text());
            assert(args.len() >= 7);
            assert(flag_value_from(args, SCENE_FLAG@, 3) == Some(s));
            assert(flag_value_from(args, SCENE_FLAG@, 2) == Some(s));
            assert(flag_value_from(args, SCENE_FLAG@, 1) == Some(s));
            assert(flag_value_from(args, LOCALE_FLAG@, 5) == Some(language.code_text()));
            assert(flag_value_from(args, LOCALE_FLAG@, 4) == Some(language.code_text()));
            assert(flag_value_from(args, LOCALE_FLAG@, 3) == Some(language.code_text()));
            assert(flag_value_from(args, LOCALE_FLAG@, 2) == Some(language.code_text()));
            assert(flag_value_from(args, LOCALE_FLAG@, 1) == Some(language.code_text()));
        },
        None => {
            assert(args[3] == LOCALE_FLAG@);
            assert(args[4] == language.code_text());
            assert(flag_value_from(args, LOCALE_FLAG@, 3) == Some(language.code_text()));
            assert(flag_value_from(args, LOCALE_FLAG@, 2) == Some(language.code_text()));
            assert(flag_value_from(args, LOCALE_FLAG@, 1) == Some(language.code_text()));
            lemma_flag_absent_after(args, 3);
            assert(flag_value_from(args, SCENE_FLAG@, 3) is None);
            assert(flag_value_from(args, SCENE_FLAG@, 2) is None);
            assert(flag_value_from(args, SCENE_FLAG@, 1) is None);
        },
    }
}

/// Past the package, a launch line without a scene holds the locale pair and perhaps the
/// globals pair, and `--scene` is none of the flags there.
proof fn lemma_flag_absent_after(args: Seq<Seq<char>>, i: int)
    requires
        3 <= i,
        args.len() == 5 || args.len() == 7,
        args[3] == LOCALE_FLAG@,
        args.len() == 7 ==> args[5] == GLOBALS_FLAG@,
        args[3] != SCENE_FLAG@,
        args.len() == 7 ==> args[5] != SCENE_FLAG@,
        args[4] != SCENE_FLAG@,
    ensures
        flag_value_from(args, SCENE_FLAG@, i) is None,
    decreases args.len() - i,
{
    if i + 1 < args.len() {
        lemma_flag_absent_after(args, i + 1);
    }
}

} // verus!
