//! The manifest of a monorepo: its commands, its dependencies (packages), and
//! the command after which the packages that depend on a package may start.
use crate::ordmap::key_views;
use vstd::prelude::*;

verus! {

/// A command that can be run in every package of the monorepo.
#[derive(Clone, Debug)]
pub struct Command {
    pub alias: String,
    pub uri: String,
    pub method: String,
    pub args: String,
    pub requires: Option<Vec<String>>,
}

/// A package of the monorepo.
#[derive(Clone, Debug)]
pub struct Dependency {
    pub name: String,
    pub path: String,
    pub requires: Option<Vec<String>>,
}

/// The manifest of a monorepo.
#[derive(Clone, Debug)]
pub struct MonowrapManifest {
    pub name: String,
    pub path: Option<String>,
    pub commands: Vec<Command>,
    pub dependencies: Vec<Dependency>,
    pub sub_deps_execute_after: String,
}

/// A copy of a vector of strings, element by element.
pub fn clone_strings(v: &Vec<String>) -> (r: Vec<String>)
    ensures
        r@ == v@,
{
    let mut r: Vec<String> = Vec::new();
    let n = v.len();
    let mut i: usize = 0;
    while i < n
        invariant
            n == v@.len(),
            i <= n,
            r@ == v@.take(i as int),
        decreases n - i,
    {
        r.push(v[i].clone());
        proof {
            assert(r@ =~= v@.take(i + 1));
        }
        i = i + 1;
    }
    proof {
        assert(v@.take(n as int) =~= v@);
    }
    r
}

/// The JSON Schema that a manifest must meet.
pub const MANIFEST_SCHEMA: &'static str = "{\"id\":\"MonowrapManifest\",\"type\":\"object\",\"additionalProperties\":false,\"required\":[\"name\",\"commands\",\"dependencies\",\"sub_deps_execute_after\"],\"properties\":{\"name\":{\"description\":\"Name of the monorepo\",\"type\":\"string\"},\"path\":{\"description\":\"Path of the manifest\",\"type\":\"string\"},\"commands\":{\"description\":\"Commands that can be executed from the monorepo\",\"type\":\"array\",\"items\":{\"$ref\":\"#/definitions/command\"}},\"dependencies\":{\"description\":\"Dependency list for the packages of the monorepo\",\"type\":\"array\",\"items\":{\"$ref\":\"#/definitions/dependency\"}},\"sub_deps_execute_after\":{\"description\":\"Execute sub dependency after the given command completes\",\"type\":\"string\"}},\"definitions\":{\"command\":{\"type\":\"object\",\"additionalProperties\":false,\"required\":[\"alias\",\"uri\",\"args\"],\"properties\":{\"alias\":{\"description\":\"Alias for the given command\",\"type\":\"string\",\"pattern\":\"^[a-zA-Z0-9\\\\-\\\\_]+$\"},\"uri\":{\"description\":\"Uri of the wrapper that this command will execute\",\"type\":\"string\",\"pattern\":\"(?:[a-zA-Z]|[0-9]|[$-_@.&+]|[!*\\\\(\\\\),]|(?:%[0-9a-fA-F][0-9a-fA-F]))+\"},\"args\":{\"description\":\"Msgpack encoded hexadecimal arguments that needs to be passed for the invocation\",\"type\":\"string\"},\"requires\":{\"description\":\"Dependencies of the current command\",\"type\":\"array\",\"items\":{\"type\":\"string\"}}}},\"dependency\":{\"type\":\"object\",\"additionalProperties\":false,\"required\":[\"name\",\"path\"],\"properties\":{\"name\":{\"description\":\"Name of the package\",\"type\":\"string\",\"pattern\":\"^[a-zA-Z0-9\\\\-\\\\_]+$\"},\"path\":{\"description\":\"Path of the package\",\"type\":\"string\"},\"requires\":{\"description\":\"Dependencies of the current package\",\"type\":\"array\",\"items\":{\"type\":\"string\"}}}}}}";

/// The JSON Schema that a manifest must meet.
pub fn get_schema() -> (s: &'static str)
    ensures
        s@ == MANIFEST_SCHEMA@,
{
    MANIFEST_SCHEMA
}

/// What validating the JSON text `instance` against the JSON Schema text
/// `schema` gives: the text of each error with the path of the instance it
/// concerns, or the text of the failure where either text is not JSON or the
/// schema does not compile.
pub uninterp spec fn schema_errors(schema: Seq<char>, instance: Seq<char>) -> Result<
    Seq<(Seq<char>, Seq<char>)>,
    Seq<char>,
>;

/// Validates `instance` against `schema` with `jsonschema::JSONSchema`
/// (`compile`, then `validate`), both texts read with `serde_json::from_str`;
/// the errors come back as their `Display` text and instance path. The schema
/// must be the manifest schema: a schema that refers to itself can make
/// `validate` recurse without end. The contract names the outcome; it does not
/// state what JSON Schema validation is.
#[verifier::external_body]
fn validate_json(schema: &str, instance: &str) -> (r: Result<Vec<(String, String)>, String>)
    requires
        schema@ == MANIFEST_SCHEMA@,
    ensures
        match r {
            Ok(v) => schema_errors(schema@, instance@) == Ok::<Seq<(Seq<char>, Seq<char>)>, Seq<char>>(key_views(v@)),
            Err(e) => schema_errors(schema@, instance@) == Err::<Seq<(Seq<char>, Seq<char>)>, Seq<char>>(e@),
        },
{
    let instance: serde_json::Value = serde_json::from_str(instance).map_err(|e| e.to_string())?;
    let schema: serde_json::Value = serde_json::from_str(schema).map_err(|e| e.to_string())?;
    let compiled = jsonschema::JSONSchema::compile(&schema).map_err(|e| e.to_string())?;
    let found = match compiled.validate(&instance) {
        Ok(()) => Vec::new(),
        Err(errors) => errors.map(|e| (e.to_string(), e.instance_path.to_string())).collect(),
    };
    Ok(found)
}

/// The report of the errors: for each, `Validation error: <error>` and, on the
/// next line, `Instance path: <path>`.
pub open spec fn error_report(errs: Seq<(Seq<char>, Seq<char>)>) -> Seq<char>
    decreases errs.len(),
{
    if errs.len() == 0 {
        Seq::empty()
    } else {
        error_report(errs.drop_last()) + "Validation error: "@ + errs.last().0 + "\nInstance path: "@
            + errs.last().1
    }
}

/// Whether the manifest text is JSON that meets the schema.
pub open spec fn manifest_valid(json_manifest: Seq<char>) -> bool {
    schema_errors(MANIFEST_SCHEMA@, json_manifest) == Ok::<Seq<(Seq<char>, Seq<char>)>, Seq<char>>(
        Seq::empty(),
    )
}

/// Validates a manifest that meets the schema. A text that is not JSON, or
/// that breaks the schema, is refused by `validate_manifest_checked`.
pub fn validate_manifest(json_manifest: &String)
    requires
        manifest_valid(json_manifest@),
    ensures
        manifest_valid(json_manifest@),
{
    let r = manifest_report(json_manifest);
    proof {
        assert(r is Ok);
    }
}

/// Validates a manifest against the schema: `Ok` where it meets it, else the
/// report of the errors, or the text of the failure where it is not JSON.
pub fn validate_manifest_checked(json_manifest: &String) -> (r: Result<(), String>)
    ensures
        r is Ok == manifest_valid(json_manifest@),
        match schema_errors(MANIFEST_SCHEMA@, json_manifest@) {
            Err(e) => r matches Err(m) && m@ == e,
            Ok(errs) => if errs.len() == 0 {
                r is Ok
            } else {
                r matches Err(m) && m@ == error_report(errs)
            },
        },
{
    match manifest_report(json_manifest) {
        Ok(()) => {
            proof {
                if let Ok(errs) = schema_errors(MANIFEST_SCHEMA@, json_manifest@) {
                    assert(errs =~= Seq::<(Seq<char>, Seq<char>)>::empty());
                }
            }
            validate_manifest(json_manifest);
            Ok(())
        },
        Err(e) => Err(e),
    }
}

/// The outcome of validating a manifest: `Ok`, the report of the errors, or
/// the text of the failure where it is not JSON.
fn manifest_report(json_manifest: &String) -> (r: Result<(), String>)
    ensures
        match schema_errors(MANIFEST_SCHEMA@, json_manifest@) {
            Err(e) => r matches Err(m) && m@ == e,
            Ok(errs) => if errs.len() == 0 {
                r is Ok
            } else {
                r matches Err(m) && m@ == error_report(errs)
            },
        },
{
    let errors = match validate_json(get_schema(), json_manifest.as_str()) {
        Ok(v) => v,
        Err(e) => {
            return Err(e);
        },
    };
    if errors.len() == 0 {
        return Ok(());
    }
    let mut error_msg = String::new();
    let n = errors.len();
    let mut i: usize = 0;
    while i < n
        invariant
            n == errors@.len(),
            i <= n,
            error_msg@ == error_report(key_views(errors@).take(i as int)),
        decreases n - i,
    {
        error_msg.append("Validation error: ");
        error_msg.append(errors[i].0.as_str());
        error_msg.append("\nInstance path: ");
        error_msg.append(errors[i].1.as_str());
        proof {
            let ks = key_views(errors@);
            assert(ks.take(i + 1).drop_last() =~= ks.take(i as int));
            assert(ks.take(i + 1).last() == ks[i as int]);
        }
        i = i + 1;
    }
    proof {
        assert(key_views(errors@).take(n as int) =~= key_views(errors@));
    }
    Err(error_msg)
}

} // verus!
