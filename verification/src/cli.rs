//! The description of the update command as plain data: its name, help
//! texts, and arguments. The embedding program maps this onto its
//! command-line parser.

use vstd::prelude::*;

verus! {

/// One argument a command accepts.
pub struct ArgSpec {
    pub name: String,
    pub help: String,
    /// Whether the argument carries a value, and under which name.
    pub value_name: Option<String>,
}

/// A subcommand: its name, summary, arguments and trailing help text.
pub struct CommandSpec {
    pub name: String,
    pub about: String,
    pub args: Vec<ArgSpec>,
    pub after_help: String,
}

/// The trailing help text of the update subcommand.
pub open spec fn update_after_help() -> Seq<char> {
    "This command requires that a `Cargo.lock` already exists as generated by\n`cargo build` or related commands.\n\nIf SPEC is given, then a conservative update of the lockfile will be\nperformed. This means that only the dependency specified by SPEC will be\nupdated. Its transitive dependencies will be updated only if SPEC cannot be\nupdated without updating dependencies.  All other dependencies will remain\nlocked at their currently recorded versions.\n\nIf PRECISE is specified, then --aggressive must not also be specified. The\nargument PRECISE is a string representing a precise revision that the package\nbeing updated should be updated to. For example, if the package comes from a git\nrepository, then PRECISE would be the exact revision that the repository should\nbe updated to.\n\nIf SPEC is not given, then all dependencies will be re-resolved and\nupdated.\n\nFor more information about package id specifications, see `cargo help pkgid`.\n"@
}

/// Builds the description of the update subcommand: which packages to
/// update, whether to update aggressively, whether to only pretend, an
/// exact revision to move to, and where the manifest lies.
pub fn cli() -> (r: CommandSpec)
    ensures
        r.name@ == "update"@,
        r.about@ == "Update dependencies as recorded in the local lock file"@,
        r.after_help@ == update_after_help(),
        r.args@.len() == 5,
        r.args@[0].name@ == "package"@,
        r.args@[0].value_name matches Some(v) && v@ == "SPEC"@,
        r.args@[1].name@ == "aggressive"@,
        r.args@[1].value_name is None,
        r.args@[2].name@ == "dry-run"@,
        r.args@[2].value_name is None,
        r.args@[3].name@ == "precise"@,
        r.args@[3].value_name matches Some(v) && v@ == "PRECISE"@,
        r.args@[4].name@ == "manifest-path"@,
        r.args@[4].value_name matches Some(v) && v@ == "PATH"@,
{
    let mut args: Vec<ArgSpec> = Vec::new();
    args.push(
        ArgSpec {
            name: "package".to_owned(),
            help: "Package to update".to_owned(),
            value_name: Some("SPEC".to_owned()),
        },
    );
    args.push(
        ArgSpec {
            name: "aggressive".to_owned(),
            help: "Force updating all dependencies of <name> as well".to_owned(),
            value_name: None,
        },
    );
    args.push(
        ArgSpec {
            name: "dry-run".to_owned(),
            help: "Don't actually write the lockfile".to_owned(),
            value_name: None,
        },
    );
    args.push(
        ArgSpec {
            name: "precise".to_owned(),
            help: "Update a single dependency to exactly PRECISE".to_owned(),
            value_name: Some("PRECISE".to_owned()),
        },
    );
    args.push(
        ArgSpec {
            name: "manifest-path".to_owned(),
            help: "Path to Cargo.toml".to_owned(),
            value_name: Some("PATH".to_owned()),
        },
    );
    CommandSpec {
        name: "update".to_owned(),
        about: "Update dependencies as recorded in the local lock file".to_owned(),
        args,
        after_help: "This command requires that a `Cargo.lock` already exists as generated by\n`cargo build` or related commands.\n\nIf SPEC is given, then a conservative update of the lockfile will be\nperformed. This means that only the dependency specified by SPEC will be\nupdated. Its transitive dependencies will be updated only if SPEC cannot be\nupdated without updating dependencies.  All other dependencies will remain\nlocked at their currently recorded versions.\n\nIf PRECISE is specified, then --aggressive must not also be specified. The\nargument PRECISE is a string representing a precise revision that the package\nbeing updated should be updated to. For example, if the package comes from a git\nrepository, then PRECISE would be the exact revision that the repository should\nbe updated to.\n\nIf SPEC is not given, then all dependencies will be re-resolved and\nupdated.\n\nFor more information about package id specifications, see `cargo help pkgid`.\n".to_owned(),
    }
}

} // verus!
