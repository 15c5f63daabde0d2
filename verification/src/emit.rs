//! What an installation writes beside packages, and how programs are run.
use vstd::prelude::*;
use vstd::string::*;

use crate::packages::PackagePlan;
use crate::paths::{path_bootstrap_file, FsPath, PATH_BOOTSTRAP_FILE};
use crate::text::Text;

verus! {

/// The version of the program that an installed package is marked with.
pub const NPT_VERSION: &'static str = "0.3.1";

/// The file in an installed package that says what it is.
pub const META_FILE: &'static str = ".neptune-meta.json";

/// The views of keys and values.
pub open spec fn field_views(fields: Seq<(String, String)>) -> Seq<(Text, Text)> {
    Seq::new(fields.len(), |i: int| (fields[i].0@, fields[i].1@))
}

/// The bytes that `serde_json::to_vec_pretty` writes for the object with these
/// keys and string values.
pub uninterp spec fn json_object(fields: Seq<(Seq<char>, Seq<char>)>) -> Seq<u8>;

/// Calls `serde_json::to_vec_pretty` on the object with these keys and string
/// values. What it writes depends on them alone; it fails only on a value that
/// refuses to be written or a key that is not a string, and here there is
/// neither.
#[verifier::external_body]
fn json_pretty(fields: &Vec<(String, String)>) -> (written: Vec<u8>)
    ensures
        written@ == json_object(field_views(fields@)),
{
    let object = fields.iter().map(|f| (f.0.clone(), serde_json::Value::String(f.1.clone()))).collect();
    serde_json::to_vec_pretty(&serde_json::Value::Object(object)).unwrap()
}

/// What an installed package is marked with.
pub open spec fn meta_view(name: Text, version: Text, content_sha256: Text) -> Seq<(Text, Text)> {
    seq![
        ("name"@, name),
        ("version"@, version),
        ("content_sha256"@, content_sha256),
        ("npt_version"@, NPT_VERSION@),
    ]
}

/// What an installed package is marked with: its name, its version, what its
/// content is known by, and the version of the program.
pub fn meta_fields(name: &str, version: &str, content_sha256: &str) -> (fields: Vec<(String, String)>)
    ensures
        field_views(fields@) == meta_view(name@, version@, content_sha256@),
{
    let mut fields: Vec<(String, String)> = Vec::new();
    fields.push((String::from_str("name"), String::from_str(name)));
    fields.push((String::from_str("version"), String::from_str(version)));
    fields.push((String::from_str("content_sha256"), String::from_str(content_sha256)));
    fields.push((String::from_str("npt_version"), String::from_str(NPT_VERSION)));
    assert(field_views(fields@) =~= meta_view(name@, version@, content_sha256@));
    fields
}

/// The mark of an installed package: where it is written, and its bytes.
pub fn package_meta(name: &str, version: &str, plan: &PackagePlan) -> (meta: (FsPath, Vec<u8>))
    ensures
        meta.0@ == plan@.dst.join(META_FILE@),
        meta.1@ == json_object(meta_view(name@, version@, plan@.content_sha256)),
{
    let bytes = json_pretty(&meta_fields(name, version, plan.content_sha256.as_str()));
    (plan.dst.join(META_FILE), bytes)
}

/// The Lua file that sets up the module search path.
pub const PATH_LUA: &'static str = "-- Auto-generated by Neptune (npt) v0.3. DO NOT EDIT.\n\
-- Usage: add `require('neptune_path')` at your program entry point.\n\
-- This file sets up Lua module search paths for all installed dependencies.\n\
\n\
local root = './nelua_modules'\n\
\n\
-- Nelua/Lua module search paths\n\
package.path = root..'/?.lua;'..root..'/?/init.lua;'..package.path\n\
\n\
-- Native module search (for C extensions, future-proof)\n\
package.cpath = root..'/?.so;'..root..'/?.dll;'..package.cpath\n\
\n\
return true\n";

/// The Lua file that sets up the module search path: where it is written, and
/// what it holds.
pub fn generate_neptune_path_lua(root: &FsPath) -> (file: (FsPath, String))
    ensures
        file.0@ == root@.join(PATH_BOOTSTRAP_FILE@),
        file.1@ == PATH_LUA@,
{
    (path_bootstrap_file(root), String::from_str(PATH_LUA))
}

/// The `LUA_PATH` with which a program finds the modules in that directory.
pub fn lua_path(modules: &str) -> (text: String)
    ensures
        text@ == modules@ + "/?.lua;"@ + modules@ + "/?/init.lua;;"@,
{
    String::from_str(modules).concat("/?.lua;").concat(modules).concat("/?/init.lua;;")
}

/// The `LUA_CPATH` with which a program finds the native modules in that
/// directory.
pub fn lua_cpath(modules: &str) -> (text: String)
    ensures
        text@ == modules@ + "/?.so;"@ + modules@ + "/?.dll;;"@,
{
    String::from_str(modules).concat("/?.so;").concat(modules).concat("/?.dll;;")
}

/// An installed package is marked with its name, its version, what its content
/// is known by and the version of the program, each under its own key; marks
/// agree just where all of these do.
pub proof fn law_meta(name: Text, version: Text, content: Text, other: (Text, Text, Text))
    ensures
        ({
            let meta = meta_view(name, version, content);
            &&& meta.len() == 4
            &&& meta.contains(("name"@, name))
            &&& meta.contains(("version"@, version))
            &&& meta.contains(("content_sha256"@, content))
            &&& meta.contains(("npt_version"@, "0.3.1"@))
        }),
        meta_view(name, version, content) == meta_view(other.0, other.1, other.2) <==> name == other.0 && version
            == other.1 && content == other.2,
{
    let meta = meta_view(name, version, content);
    let more = meta_view(other.0, other.1, other.2);
    assert(meta[0] == ("name"@, name));
    assert(meta[1] == ("version"@, version));
    assert(meta[2] == ("content_sha256"@, content));
    assert(meta[3] == ("npt_version"@, "0.3.1"@));
    assert(more[0].1 == other.0 && more[1].1 == other.1 && more[2].1 == other.2);
}

/// The mark of an installed package is written into the package, and holds the
/// package's name and version and what its content is known by.
pub proof fn law_package_meta(name: &str, version: &str, plan: &PackagePlan, meta: (FsPath, Vec<u8>))
    requires
        call_ensures(package_meta, (name, version, plan), meta),
    ensures
        meta.0@.base == plan.dst@.base,
        meta.0@.parts == plan.dst@.parts + seq![".neptune-meta.json"@],
        meta.1@ == json_object(
            seq![
                ("name"@, name@),
                ("version"@, version@),
                ("content_sha256"@, plan.content_sha256@),
                ("npt_version"@, "0.3.1"@),
            ],
        ),
{
    assert(meta.0@.parts =~= plan.dst@.parts + seq![".neptune-meta.json"@]);
}

/// Programs look for each kind of module in the modules directory and nowhere
/// else before what they look at by themselves.
pub proof fn law_search_paths(modules: &str, path: String, cpath: String)
    requires
        call_ensures(lua_path, (modules,), path),
        call_ensures(lua_cpath, (modules,), cpath),
    ensures
        path@ == modules@ + "/?.lua;"@ + modules@ + "/?/init.lua;;"@,
        cpath@ == modules@ + "/?.so;"@ + modules@ + "/?.dll;;"@,
{
}

} // verus!
