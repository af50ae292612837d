//! Reading a workload's opaque runtime-config string as a podman
//! configuration: the YAML text is parsed by serde_yaml, and the fields the
//! adapter needs are read out of the parsed document.
use vstd::prelude::*;

use crate::doc::strings_view;
use crate::objects::WorkloadSpec;

verus! {

#[verifier::external_type_specification]
#[verifier::external_body]
pub struct ExYamlValue(serde_yaml::Value);

/// The string stored under `key` when the document is a mapping whose entry
/// at `key` is a string; nothing otherwise.
pub uninterp spec fn yaml_string_entry(v: serde_yaml::Value, key: Seq<char>) -> Option<Seq<char>>;

/// The strings stored under `key` when the document is a mapping whose entry
/// at `key` is a sequence of strings; nothing otherwise.
pub uninterp spec fn yaml_string_list_entry(v: serde_yaml::Value, key: Seq<char>) -> Option<
    Seq<Seq<char>>,
>;

/// Whether the text parses as a YAML document.
pub uninterp spec fn yaml_parses(s: Seq<char>) -> bool;

/// The string entry that the parsed form of the text holds under `key`;
/// meaningful when `yaml_parses` holds of the text.
pub uninterp spec fn parsed_string_entry(s: Seq<char>, key: Seq<char>) -> Option<Seq<char>>;

/// The string-list entry that the parsed form of the text holds under
/// `key`; meaningful when `yaml_parses` holds of the text.
pub uninterp spec fn parsed_string_list_entry(s: Seq<char>, key: Seq<char>) -> Option<
    Seq<Seq<char>>,
>;

/// Relies on serde_yaml::from_str: parses YAML text into a document, or
/// fails. Parsing is deterministic in the text, so the document's entries
/// are the text's entries.
#[verifier::external_body]
fn parse_yaml_document(s: &str) -> (r: Option<serde_yaml::Value>)
    ensures
        r is Some <==> yaml_parses(s@),
        r matches Some(v) ==> (forall|key: Seq<char>| #[trigger]
            yaml_string_entry(v, key) == parsed_string_entry(s@, key)) && (forall|key: Seq<char>|
            #[trigger] yaml_string_list_entry(v, key) == parsed_string_list_entry(s@, key)),
{
    serde_yaml::from_str::<serde_yaml::Value>(s).ok()
}

/// Relies on serde_yaml::Value::get and serde_yaml::Value::as_str: hands out
/// the string entry at `key`, as `yaml_string_entry` names it.
#[verifier::external_body]
fn yaml_get_string(v: &serde_yaml::Value, key: &str) -> (r: Option<String>)
    ensures
        match r {
            Some(s) => yaml_string_entry(*v, key@) == Some(s@),
            None => yaml_string_entry(*v, key@) is None,
        },
{
    match v.get(key) {
        Some(x) => match x.as_str() {
            Some(t) => Some(t.to_owned()),
            None => None,
        },
        None => None,
    }
}

/// Relies on serde_yaml::Value::get, serde_yaml::Value::as_sequence and
/// serde_yaml::Value::as_str: hands out the string-list entry at `key`, as
/// `yaml_string_list_entry` names it.
#[verifier::external_body]
fn yaml_get_string_list(v: &serde_yaml::Value, key: &str) -> (r: Option<Vec<String>>)
    ensures
        match r {
            Some(l) => yaml_string_list_entry(*v, key@) == Some(strings_view(l@)),
            None => yaml_string_list_entry(*v, key@) is None,
        },
{
    let sq = match v.get(key) {
        Some(x) => match x.as_sequence() {
            Some(sq) => sq,
            None => return None,
        },
        None => return None,
    };
    let mut out: Vec<String> = Vec::new();
    for item in sq {
        match item.as_str() {
            Some(t) => out.push(t.to_owned()),
            None => return None,
        }
    }
    Some(out)
}

/// The first of two spellings under which a list may be stored: the
/// camel-case alias wins, the snake-case name is the fallback.
pub open spec fn aliased_list_entry(
    v: serde_yaml::Value,
    alias: Seq<char>,
    name: Seq<char>,
) -> Option<Seq<Seq<char>>> {
    match yaml_string_list_entry(v, alias) {
        Some(l) => Some(l),
        None => yaml_string_list_entry(v, name),
    }
}

/// `parsed_string_list_entry` under the alias first, the plain name second.
pub open spec fn parsed_aliased_list_entry(
    s: Seq<char>,
    alias: Seq<char>,
    name: Seq<char>,
) -> Option<Seq<Seq<char>>> {
    match parsed_string_list_entry(s, alias) {
        Some(l) => Some(l),
        None => parsed_string_list_entry(s, name),
    }
}

pub open spec fn opt_strings_view(o: Option<Vec<String>>) -> Option<Seq<Seq<char>>> {
    match o {
        Some(l) => Some(strings_view(l@)),
        None => None,
    }
}

/// The runtime name the podman adapter answers to.
pub fn podman_runtime_name() -> (r: &'static str)
    ensures
        r@ == "podman"@,
{
    "podman"
}

/// The configuration the podman adapter reads out of a workload's
/// runtime-config document.
#[derive(Clone, Debug)]
pub struct PodmanRuntimeConfig {
    pub general_options: Option<Vec<String>>,
    pub command_options: Option<Vec<String>>,
    pub image: String,
    pub command_args: Option<Vec<String>>,
}

fn opt_string_vecs_eq(a: &Option<Vec<String>>, b: &Option<Vec<String>>) -> (r: bool)
    ensures
        r == (opt_strings_view(*a) == opt_strings_view(*b)),
{
    match (a, b) {
        (None, None) => true,
        (Some(x), Some(y)) => {
            if x.len() != y.len() {
                assert(strings_view(x@).len() != strings_view(y@).len());
                return false;
            }
            let n = x.len();
            let mut i: usize = 0;
            while i < n
                invariant
                    n == x@.len() == y@.len(),
                    i <= n,
                    opt_strings_view(*a) == Some(strings_view(x@)),
                    opt_strings_view(*b) == Some(strings_view(y@)),
                    forall|j: int| 0 <= j < i ==> strings_view(x@)[j] == strings_view(y@)[j],
                decreases n - i,
            {
                if !(x[i] == y[i]) {
                    assert(strings_view(x@)[i as int] != strings_view(y@)[i as int]);
                    return false;
                }
                assert(strings_view(x@)[i as int] == strings_view(y@)[i as int]);
                i += 1;
            }
            proof {
                assert(strings_view(x@) =~= strings_view(y@));
            }
            true
        },
        _ => false,
    }
}

impl PartialEq for PodmanRuntimeConfig {
    fn eq(&self, other: &Self) -> (r: bool) {
        self.image == other.image && opt_string_vecs_eq(
            &self.general_options,
            &other.general_options,
        ) && opt_string_vecs_eq(&self.command_options, &other.command_options)
            && opt_string_vecs_eq(&self.command_args, &other.command_args)
    }
}

impl Eq for PodmanRuntimeConfig {

}

impl vstd::std_specs::cmp::PartialEqSpecImpl for PodmanRuntimeConfig {
    open spec fn obeys_eq_spec() -> bool {
        true
    }

    open spec fn eq_spec(&self, other: &Self) -> bool {
        self.image@ == other.image@ && opt_strings_view(self.general_options) == opt_strings_view(
            other.general_options,
        ) && opt_strings_view(self.command_options) == opt_strings_view(other.command_options)
            && opt_strings_view(self.command_args) == opt_strings_view(other.command_args)
    }
}

/// Why a workload description could not be read as a podman configuration.
#[derive(Clone, Debug)]
pub struct TryFromWorkloadSpecError(String);

impl View for TryFromWorkloadSpecError {
    type V = Seq<char>;

    closed spec fn view(&self) -> Seq<char> {
        self.0@
    }
}

impl From<TryFromWorkloadSpecError> for String {
    fn from(value: TryFromWorkloadSpecError) -> (r: String)
        ensures
            r@ == value@,
    {
        value.0
    }
}

impl vstd::std_specs::convert::FromSpecImpl<TryFromWorkloadSpecError> for String {
    open spec fn obeys_from_spec() -> bool {
        true
    }

    closed spec fn from_spec(value: TryFromWorkloadSpecError) -> String {
        value.0
    }
}

/// Reads the podman fields out of a parsed runtime-config document: a
/// configuration exists exactly when the document holds a string `image`.
pub fn config_from_document(v: &serde_yaml::Value) -> (r: Result<
    PodmanRuntimeConfig,
    TryFromWorkloadSpecError,
>)
    ensures
        match r {
            Ok(c) => yaml_string_entry(*v, "image"@) == Some(c.image@) && opt_strings_view(
                c.general_options,
            ) == aliased_list_entry(*v, "generalOptions"@, "general_options"@) && opt_strings_view(
                c.command_options,
            ) == aliased_list_entry(*v, "commandOptions"@, "command_options"@) && opt_strings_view(
                c.command_args,
            ) == aliased_list_entry(*v, "commandArgs"@, "command_args"@),
            Err(e) => yaml_string_entry(*v, "image"@) is None && e@
                == "The runtime configuration names no image."@,
        },
{
    let image = match yaml_get_string(v, "image") {
        Some(s) => s,
        None => {
            return Err(
                TryFromWorkloadSpecError("The runtime configuration names no image.".to_owned()),
            );
        },
    };
    let general_options = match yaml_get_string_list(v, "generalOptions") {
        Some(l) => Some(l),
        None => yaml_get_string_list(v, "general_options"),
    };
    let command_options = match yaml_get_string_list(v, "commandOptions") {
        Some(l) => Some(l),
        None => yaml_get_string_list(v, "command_options"),
    };
    let command_args = match yaml_get_string_list(v, "commandArgs") {
        Some(l) => Some(l),
        None => yaml_get_string_list(v, "command_args"),
    };
    Ok(PodmanRuntimeConfig { general_options, command_options, image, command_args })
}

impl PodmanRuntimeConfig {
    /// Reads a workload description as a podman configuration: the workload
    /// must name the podman runtime, and its runtime-config text must parse
    /// as a document with a string `image`; the fields come from that
    /// document's entries.
    pub fn try_from(workload_spec: &WorkloadSpec) -> (r: Result<
        PodmanRuntimeConfig,
        TryFromWorkloadSpecError,
    >)
        ensures
            workload_spec.runtime@ != "podman"@ ==> (r matches Err(e) && e@
                == "Received a spec for the wrong runtime: '"@ + workload_spec.runtime@ + "'"@),
            workload_spec.runtime@ == "podman"@ && !yaml_parses(workload_spec.runtime_config@)
                ==> (r matches Err(e) && e@ == "Could not parse the runtime configuration."@),
            workload_spec.runtime@ == "podman"@ && yaml_parses(workload_spec.runtime_config@)
                ==> match r {
                Ok(c) => parsed_string_entry(workload_spec.runtime_config@, "image"@) == Some(
                    c.image@,
                ) && opt_strings_view(c.general_options) == parsed_aliased_list_entry(
                    workload_spec.runtime_config@,
                    "generalOptions"@,
                    "general_options"@,
                ) && opt_strings_view(c.command_options) == parsed_aliased_list_entry(
                    workload_spec.runtime_config@,
                    "commandOptions"@,
                    "command_options"@,
                ) && opt_strings_view(c.command_args) == parsed_aliased_list_entry(
                    workload_spec.runtime_config@,
                    "commandArgs"@,
                    "command_args"@,
                ),
                Err(e) => parsed_string_entry(workload_spec.runtime_config@, "image"@) is None
                    && e@ == "The runtime configuration names no image."@,
            },
    {
        let expected = podman_runtime_name().to_owned();
        if !(workload_spec.runtime == expected) {
            let mut msg = "Received a spec for the wrong runtime: '".to_owned();
            msg.append(workload_spec.runtime.as_str());
            msg.append("'");
            return Err(TryFromWorkloadSpecError(msg));
        }
        match parse_yaml_document(workload_spec.runtime_config.as_str()) {
            Some(doc) => {
                let r = config_from_document(&doc);
                proof {
                    let rc = workload_spec.runtime_config@;
                    assert(yaml_string_entry(doc, "image"@) == parsed_string_entry(rc, "image"@));
                    assert(yaml_string_list_entry(doc, "generalOptions"@)
                        == parsed_string_list_entry(rc, "generalOptions"@));
                    assert(yaml_string_list_entry(doc, "general_options"@)
                        == parsed_string_list_entry(rc, "general_options"@));
                    assert(yaml_string_list_entry(doc, "commandOptions"@)
                        == parsed_string_list_entry(rc, "commandOptions"@));
                    assert(yaml_string_list_entry(doc, "command_options"@)
                        == parsed_string_list_entry(rc, "command_options"@));
                    assert(yaml_string_list_entry(doc, "commandArgs"@)
                        == parsed_string_list_entry(rc, "commandArgs"@));
                    assert(yaml_string_list_entry(doc, "command_args"@)
                        == parsed_string_list_entry(rc, "command_args"@));
                }
                r
            },
            None => Err(
                TryFromWorkloadSpecError(
                    "Could not parse the runtime configuration.".to_owned(),
                ),
            ),
        }
    }
}

} // verus!
