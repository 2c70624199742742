//! Defaults that an owner-only configuration file gives to the command line

use vstd::prelude::*;
use vstd::string::StrSliceExecFns;

use crate::phase::{decimal, decimal_text};
use crate::text::owned;

verus! {

/// Settings read from a configuration file; each is optional
#[derive(Debug, Clone, Default, PartialEq, Eq)]
pub struct FileConfig {
    pub mnemonic_file: Option<String>,
    pub template_file: Option<String>,
    pub passphrase_file: Option<String>,
    pub empty_passphrase: Option<bool>,
    pub words_file: Option<String>,
    pub recipe_file: Option<String>,
    pub fingerprint: Option<String>,
    pub master_xpub_file: Option<String>,
    pub state_dir: Option<String>,
    pub neighbors: Option<usize>,
    pub max_replacements: Option<usize>,
    pub lowercase_already_tried: Option<bool>,
    pub order: Option<String>,
    pub spacing: Option<String>,
    pub concatenated_already_tried: Option<bool>,
}

/// The configuration path named by the arguments (after the program name):
/// the argument after the first `--config`, or the rest of the first
/// `--config=...`, whichever comes first; with neither, the environment's
pub open spec fn config_path_of(arguments: Seq<Seq<char>>, environment: Option<Seq<char>>) -> Option<Seq<char>>
    decreases arguments.len(),
{
    if arguments.len() == 0 {
        environment
    } else if arguments[0] == "--config"@ {
        if arguments.len() > 1 {
            Some(arguments[1])
        } else {
            None
        }
    } else if "--config="@.is_prefix_of(arguments[0]) {
        Some(arguments[0].skip(9))
    } else {
        config_path_of(arguments.drop_first(), environment)
    }
}

fn starts_with_config_assignment(argument: &str) -> (starts: bool)
    ensures
        starts == "--config="@.is_prefix_of(argument@),
{
    let prefix = "--config=";
    proof {
        reveal_strlit("--config=");
    }
    let length = argument.unicode_len();
    if length < 9 {
        return false;
    }
    let mut k: usize = 0;
    while k < 9
        invariant
            k <= 9,
            prefix@.len() == 9,
            prefix@ == "--config="@,
            argument@.len() >= 9,
            forall|j: int| 0 <= j < k ==> #[trigger] prefix@[j] == argument@[j],
        decreases 9 - k,
    {
        if prefix.get_char(k) != argument.get_char(k) {
            proof {
                assert(argument@.subrange(0, 9)[k as int] != prefix@[k as int]);
                assert(!(prefix@ =~= argument@.subrange(0, prefix@.len() as int)));
            }
            return false;
        }
        k = k + 1;
    }
    assert(argument@.subrange(0, 9) =~= prefix@);
    true
}

/// Path of the configuration file from the arguments that follow the program
/// name and from the value of `RECOVERME_CONFIG`
pub fn config_path(arguments: &Vec<String>, environment: Option<String>) -> (path: Option<String>)
    ensures
        text_option(path) == config_path_of(arguments@.map_values(|a: String| a@), text_option(environment)),
{
    let ghost all = arguments@.map_values(|a: String| a@);
    let ghost fallback = text_option(environment);
    let flag = owned("--config");
    let mut i: usize = 0;
    proof {
        reveal_strlit("--config=");
        assert(all.skip(0) =~= all);
    }
    while i < arguments.len()
        invariant
            "--config="@.len() == 9,
            i <= arguments@.len(),
            all == arguments@.map_values(|a: String| a@),
            fallback == text_option(environment),
            flag@ == "--config"@,
            config_path_of(all.skip(i as int), fallback) == config_path_of(all, fallback),
        decreases arguments@.len() - i,
    {
        let ghost rest = all.skip(i as int);
        assert(rest[0] == arguments@[i as int]@);
        assert(rest.drop_first() =~= all.skip(i + 1));
        if arguments[i] == flag {
            if i + 1 < arguments.len() {
                assert(rest[1] == arguments@[i + 1]@);
                return Some(arguments[i + 1].clone());
            }
            return None;
        }
        if starts_with_config_assignment(arguments[i].as_str()) {
            let argument = arguments[i].as_str();
            let length = argument.unicode_len();
            return Some(owned(argument.substring_char(9, length)));
        }
        i = i + 1;
    }
    assert(all.skip(arguments@.len() as int) =~= Seq::<Seq<char>>::empty());
    environment
}

/// View of an optional text
pub open spec fn text_option(value: Option<String>) -> Option<Seq<char>> {
    match value {
        Some(v) => Some(v@),
        None => None,
    }
}

/// Decimal text of an optional number
pub open spec fn number_option(value: Option<usize>) -> Option<Seq<char>> {
    match value {
        Some(v) => Some(decimal(v as nat)),
        None => None,
    }
}

/// Text of an optional flag
pub open spec fn flag_option(value: Option<bool>) -> Option<Seq<char>> {
    match value {
        Some(v) => Some(flag_text(v)),
        None => None,
    }
}

/// A variable's assignment when the value is present
pub open spec fn assignment(name: Seq<char>, value: Option<Seq<char>>) -> Seq<(Seq<char>, Seq<char>)> {
    match value {
        Some(v) => seq![(name, v)],
        None => Seq::empty(),
    }
}

/// Text of a flag
pub open spec fn flag_text(flag: bool) -> Seq<char> {
    if flag {
        "true"@
    } else {
        "false"@
    }
}

/// The environment variables that a configuration provides, with their
/// values, in order; an empty passphrase is provided only when enabled
pub open spec fn config_assignments_of(config: FileConfig) -> Seq<(Seq<char>, Seq<char>)> {
    assignment("RECOVERME_MNEMONIC_FILE"@, text_option(config.mnemonic_file))
        + assignment("RECOVERME_TEMPLATE_FILE"@, text_option(config.template_file))
        + assignment("RECOVERME_PASSPHRASE_FILE"@, text_option(config.passphrase_file))
        + assignment(
        "RECOVERME_EMPTY_PASSPHRASE"@,
        if config.empty_passphrase == Some(true) {
            Some("true"@)
        } else {
            None
        },
    ) + assignment("RECOVERME_WORDS_FILE"@, text_option(config.words_file))
        + assignment("RECOVERME_RECIPE_FILE"@, text_option(config.recipe_file))
        + assignment("RECOVERME_FINGERPRINT"@, text_option(config.fingerprint))
        + assignment("RECOVERME_MASTER_XPUB_FILE"@, text_option(config.master_xpub_file))
        + assignment("RECOVERME_STATE_DIR"@, text_option(config.state_dir))
        + assignment("RECOVERME_NEIGHBORS"@, number_option(config.neighbors))
        + assignment("RECOVERME_MAX_REPLACEMENTS"@, number_option(config.max_replacements))
        + assignment(
        "RECOVERME_LOWERCASE_ALREADY_TRIED"@,
        flag_option(config.lowercase_already_tried),
    ) + assignment("RECOVERME_ORDER"@, text_option(config.order))
        + assignment("RECOVERME_SPACING"@, text_option(config.spacing))
        + assignment(
        "RECOVERME_CONCATENATED_ALREADY_TRIED"@,
        flag_option(config.concatenated_already_tried),
    )
}

/// View of assignments
pub open spec fn assignments_view(assignments: Seq<(String, String)>) -> Seq<(Seq<char>, Seq<char>)> {
    assignments.map_values(|entry: (String, String)| (entry.0@, entry.1@))
}

fn push_assignment(assignments: &mut Vec<(String, String)>, name: &str, value: &Option<String>)
    ensures
        assignments_view(final(assignments)@) == assignments_view(old(assignments)@) + assignment(
            name@,
            text_option(*value),
        ),
{
    let ghost before = assignments@;
    if let Some(v) = value {
        assignments.push((owned(name), v.clone()));
    }
    assert(assignments_view(assignments@) =~= assignments_view(before) + assignment(
        name@,
        text_option(*value),
    ));
}

fn number_text(value: Option<usize>) -> (text: Option<String>)
    ensures
        text_option(text) == number_option(value),
{
    match value {
        Some(v) => Some(decimal_text(v)),
        None => None,
    }
}

fn flag_value(value: Option<bool>) -> (text: Option<String>)
    ensures
        text_option(text) == flag_option(value),
{
    match value {
        Some(true) => Some(owned("true")),
        Some(false) => Some(owned("false")),
        None => None,
    }
}

/// Every setting that a configuration holds is assigned to its variable, with
/// the setting's text: paths and names as written, numbers in decimal, flags
/// as `true` or `false`, and the empty passphrase only when enabled
pub proof fn lemma_config_assignments_cover(config: FileConfig)
    ensures
        config.mnemonic_file matches Some(v) ==> config_assignments_of(config).contains(("RECOVERME_MNEMONIC_FILE"@, v@)),
        config.template_file matches Some(v) ==> config_assignments_of(config).contains(("RECOVERME_TEMPLATE_FILE"@, v@)),
        config.passphrase_file matches Some(v) ==> config_assignments_of(config).contains(("RECOVERME_PASSPHRASE_FILE"@, v@)),
        config.words_file matches Some(v) ==> config_assignments_of(config).contains(("RECOVERME_WORDS_FILE"@, v@)),
        config.recipe_file matches Some(v) ==> config_assignments_of(config).contains(("RECOVERME_RECIPE_FILE"@, v@)),
        config.fingerprint matches Some(v) ==> config_assignments_of(config).contains(("RECOVERME_FINGERPRINT"@, v@)),
        config.master_xpub_file matches Some(v) ==> config_assignments_of(config).contains(("RECOVERME_MASTER_XPUB_FILE"@, v@)),
        config.state_dir matches Some(v) ==> config_assignments_of(config).contains(("RECOVERME_STATE_DIR"@, v@)),
        config.neighbors matches Some(v) ==> config_assignments_of(config).contains(("RECOVERME_NEIGHBORS"@, decimal(v as nat))),
        config.max_replacements matches Some(v) ==> config_assignments_of(config).contains(("RECOVERME_MAX_REPLACEMENTS"@, decimal(v as nat))),
        config.lowercase_already_tried matches Some(v) ==> config_assignments_of(config).contains(("RECOVERME_LOWERCASE_ALREADY_TRIED"@, flag_text(v))),
        config.order matches Some(v) ==> config_assignments_of(config).contains(("RECOVERME_ORDER"@, v@)),
        config.spacing matches Some(v) ==> config_assignments_of(config).contains(("RECOVERME_SPACING"@, v@)),
        config.concatenated_already_tried matches Some(v) ==> config_assignments_of(config).contains(("RECOVERME_CONCATENATED_ALREADY_TRIED"@, flag_text(v))),
        config.empty_passphrase == Some(true) ==> config_assignments_of(config).contains(("RECOVERME_EMPTY_PASSPHRASE"@, "true"@)),
{
    assert forall|a: Seq<(Seq<char>, Seq<char>)>, b: Seq<(Seq<char>, Seq<char>)>, x: (Seq<char>, Seq<char>)|
        a.contains(x) || b.contains(x) implies #[trigger] (a + b).contains(x) by {
        if a.contains(x) {
            let i = choose|i: int| 0 <= i < a.len() && a[i] == x;
            assert((a + b)[i] == x);
        } else {
            let i = choose|i: int| 0 <= i < b.len() && b[i] == x;
            assert((a + b)[a.len() + i] == x);
        }
    }
    assert forall|n: Seq<char>, v: Seq<char>| #[trigger] assignment(n, Some(v)).contains((n, v)) by {
        assert(assignment(n, Some(v))[0] == (n, v));
    }
}

/// The environment variables to set from a configuration file, in order,
/// each with its text; a variable that is already set keeps its value
pub fn config_assignments(config: &FileConfig) -> (assignments: Vec<(String, String)>)
    ensures
        assignments_view(assignments@) == config_assignments_of(*config),
        config.mnemonic_file matches Some(v) ==> assignments_view(assignments@).contains(("RECOVERME_MNEMONIC_FILE"@, v@)),
        config.template_file matches Some(v) ==> assignments_view(assignments@).contains(("RECOVERME_TEMPLATE_FILE"@, v@)),
        config.passphrase_file matches Some(v) ==> assignments_view(assignments@).contains(("RECOVERME_PASSPHRASE_FILE"@, v@)),
        config.words_file matches Some(v) ==> assignments_view(assignments@).contains(("RECOVERME_WORDS_FILE"@, v@)),
        config.recipe_file matches Some(v) ==> assignments_view(assignments@).contains(("RECOVERME_RECIPE_FILE"@, v@)),
        config.fingerprint matches Some(v) ==> assignments_view(assignments@).contains(("RECOVERME_FINGERPRINT"@, v@)),
        config.master_xpub_file matches Some(v) ==> assignments_view(assignments@).contains(("RECOVERME_MASTER_XPUB_FILE"@, v@)),
        config.state_dir matches Some(v) ==> assignments_view(assignments@).contains(("RECOVERME_STATE_DIR"@, v@)),
        config.neighbors matches Some(v) ==> assignments_view(assignments@).contains(("RECOVERME_NEIGHBORS"@, decimal(v as nat))),
        config.max_replacements matches Some(v) ==> assignments_view(assignments@).contains(("RECOVERME_MAX_REPLACEMENTS"@, decimal(v as nat))),
        config.lowercase_already_tried matches Some(v) ==> assignments_view(assignments@).contains(("RECOVERME_LOWERCASE_ALREADY_TRIED"@, flag_text(v))),
        config.order matches Some(v) ==> assignments_view(assignments@).contains(("RECOVERME_ORDER"@, v@)),
        config.spacing matches Some(v) ==> assignments_view(assignments@).contains(("RECOVERME_SPACING"@, v@)),
        config.concatenated_already_tried matches Some(v) ==> assignments_view(assignments@).contains(("RECOVERME_CONCATENATED_ALREADY_TRIED"@, flag_text(v))),
        config.empty_passphrase == Some(true) ==> assignments_view(assignments@).contains(("RECOVERME_EMPTY_PASSPHRASE"@, "true"@)),
{
    let mut assignments: Vec<(String, String)> = Vec::new();
    push_assignment(&mut assignments, "RECOVERME_MNEMONIC_FILE", &config.mnemonic_file);
    push_assignment(&mut assignments, "RECOVERME_TEMPLATE_FILE", &config.template_file);
    push_assignment(&mut assignments, "RECOVERME_PASSPHRASE_FILE", &config.passphrase_file);
    let empty_passphrase = match config.empty_passphrase {
        Some(true) => Some(owned("true")),
        _ => None,
    };
    push_assignment(&mut assignments, "RECOVERME_EMPTY_PASSPHRASE", &empty_passphrase);
    push_assignment(&mut assignments, "RECOVERME_WORDS_FILE", &config.words_file);
    push_assignment(&mut assignments, "RECOVERME_RECIPE_FILE", &config.recipe_file);
    push_assignment(&mut assignments, "RECOVERME_FINGERPRINT", &config.fingerprint);
    push_assignment(&mut assignments, "RECOVERME_MASTER_XPUB_FILE", &config.master_xpub_file);
    push_assignment(&mut assignments, "RECOVERME_STATE_DIR", &config.state_dir);
    push_assignment(&mut assignments, "RECOVERME_NEIGHBORS", &number_text(config.neighbors));
    push_assignment(&mut assignments, "RECOVERME_MAX_REPLACEMENTS", &number_text(config.max_replacements));
    push_assignment(
        &mut assignments,
        "RECOVERME_LOWERCASE_ALREADY_TRIED",
        &flag_value(config.lowercase_already_tried),
    );
    push_assignment(&mut assignments, "RECOVERME_ORDER", &config.order);
    push_assignment(&mut assignments, "RECOVERME_SPACING", &config.spacing);
    push_assignment(
        &mut assignments,
        "RECOVERME_CONCATENATED_ALREADY_TRIED",
        &flag_value(config.concatenated_already_tried),
    );
    proof {
        lemma_config_assignments_cover(*config);
    }
    assignments
}

} // verus!
