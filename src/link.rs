//! The directives that link the runtime's libraries and a compiled package
//! into the native binary, decided from the toolchain's target description.
use vstd::prelude::*;
use vstd::string::{StringExecFns, StringSliceAdditionalSpecFns};
use vstd::utf8::{encode_scalar, encode_utf8};

verus! {

/// The target as the toolchain describes it.
pub struct SwiftTargetInfo {
    pub triple: String,
    pub unversioned_triple: String,
    pub module_triple: String,
    pub swift_runtime_compatibility_version: String,
    pub libraries_require_rpath: bool,
}

/// Where the toolchain keeps the runtime's libraries.
pub struct SwiftPaths {
    pub runtime_library_paths: Vec<String>,
    pub runtime_library_import_paths: Vec<String>,
    pub runtime_resource_path: String,
}

/// The toolchain's description of a target: the target and its paths.
pub struct SwiftTarget {
    pub target: SwiftTargetInfo,
    pub paths: SwiftPaths,
}

/// Why the runtime's libraries cannot be linked.
pub enum LinkError {
    /// The runtime's libraries would need a run-time search path, which a
    /// later minimum OS version makes unnecessary.
    LibrariesRequireRPath,
}

/// The directive that adds `dir` to the native library search path.
pub open spec fn search_directive(dir: Seq<char>) -> Seq<char> {
    "cargo:rustc-link-search=native="@ + dir
}

/// The directive that links the static library `name`.
pub open spec fn static_lib_directive(name: Seq<char>) -> Seq<char> {
    "cargo:rustc-link-lib=static="@ + name
}

/// The separator that joins a directory and a name below it: none when the
/// directory is empty or already ends in a slash, else a slash.
pub open spec fn join_separator(dir: Seq<char>) -> Seq<char> {
    if dir.len() == 0 || dir.last() == '/' {
        ""@
    } else {
        "/"@
    }
}

/// Where the package's build puts its products for a target and profile:
/// `.build/<triple>/<profile>` below the package root.
pub open spec fn build_dir(root: Seq<char>, triple: Seq<char>, profile: Seq<char>) -> Seq<char> {
    root + join_separator(root) + ".build/"@ + triple + "/"@ + profile
}

/// The last byte of one character's UTF-8 encoding is a slash exactly when
/// the character is one.
proof fn lemma_scalar_ends_with_slash(c: char)
    ensures
        encode_scalar(c as u32).len() > 0,
        (encode_scalar(c as u32).last() == 0x2Fu8) <==> c == '/',
{
    let v = c as u32;
    assert(('/' as u32) == 0x2Fu32);
    if v <= 0x7F {
        assert(((v & 0x7F) as u8 == 0x2Fu8) <==> v == 0x2Fu32) by (bit_vector)
            requires
                v <= 0x7F,
        ;
    } else {
        assert((0x80u8 | (v & 0x3F) as u8) != 0x2Fu8) by (bit_vector);
    }
}

/// The UTF-8 encoding of a non-empty text ends in a slash byte exactly when
/// the text ends in a slash.
proof fn lemma_ends_with_slash(chars: Seq<char>)
    requires
        chars.len() > 0,
    ensures
        encode_utf8(chars).len() > 0,
        (encode_utf8(chars).last() == 0x2Fu8) <==> chars.last() == '/',
    decreases chars.len(),
{
    let head = encode_scalar(chars[0] as u32);
    let rest = chars.drop_first();
    lemma_scalar_ends_with_slash(chars[0]);
    if chars.len() == 1 {
        assert(encode_utf8(rest) =~= Seq::<u8>::empty());
        assert(encode_utf8(chars) =~= head);
    } else {
        lemma_ends_with_slash(rest);
        assert(rest.last() == chars.last());
        assert((head + encode_utf8(rest)).last() == encode_utf8(rest).last());
    }
}

/// Whether joining a name below `dir` needs a slash between them.
fn needs_separator(dir: &str) -> (r: bool)
    ensures
        r <==> join_separator(dir@) == "/"@,
{
    let bytes = dir.as_bytes();
    proof {
        reveal_strlit("/");
        reveal_strlit("");
        assert(""@.len() == 0 && "/"@.len() == 1);
        assert(bytes@ == encode_utf8(dir@));
        if dir@.len() > 0 {
            lemma_ends_with_slash(dir@);
        }
    }
    let n = bytes.len();
    if n == 0 {
        proof {
            if dir@.len() > 0 {
                assert(bytes@.len() > 0);
            }
        }
        false
    } else {
        proof {
            if dir@.len() == 0 {
                assert(encode_utf8(dir@) =~= Seq::<u8>::empty());
            }
        }
        let last = bytes[n - 1];
        proof {
            assert(last == encode_utf8(dir@).last());
        }
        last != 0x2Fu8
    }
}

fn concat(a: &str, b: &str) -> (r: String)
    ensures
        r@ == a@ + b@,
{
    let mut r = a.to_owned();
    r.append(b);
    r
}

/// The directives that put the runtime's libraries on the search path: one
/// per runtime library path, in order. Refused when those libraries would
/// need a run-time search path.
pub fn link_swift(target: &SwiftTarget) -> (r: Result<Vec<String>, LinkError>)
    ensures
        r is Err <==> target.target.libraries_require_rpath,
        r matches Ok(v) ==> v@.len() == target.paths.runtime_library_paths@.len() && forall|i: int|
            0 <= i < v@.len() ==> (#[trigger] v@[i])@ == search_directive(
                target.paths.runtime_library_paths@[i]@,
            ),
{
    if target.target.libraries_require_rpath {
        return Err(LinkError::LibrariesRequireRPath);
    }
    let paths = &target.paths.runtime_library_paths;
    let mut out: Vec<String> = Vec::new();
    let mut i: usize = 0;
    while i < paths.len()
        invariant
            0 <= i <= paths@.len(),
            out@.len() == i,
            forall|j: int| 0 <= j < i ==> (#[trigger] out@[j])@ == search_directive(paths@[j]@),
        decreases paths@.len() - i,
    {
        out.push(concat("cargo:rustc-link-search=native=", paths[i].as_str()));
        i = i + 1;
    }
    Ok(out)
}

/// The directives that link the package `package_name`, built under
/// `package_root` with `profile`: its build directory on the search path,
/// then the package as a static library. A root with or without a trailing
/// slash names the same build directory.
pub fn link_swift_package(package_name: &str, package_root: &str, profile: &str, target: &SwiftTarget) -> (r: Vec<String>)
    ensures
        r@.len() == 2,
        r@[0]@ == search_directive(build_dir(package_root@, target.target.unversioned_triple@, profile@)),
        r@[1]@ == static_lib_directive(package_name@),
{
    let mut dir = concat("cargo:rustc-link-search=native=", package_root);
    if needs_separator(package_root) {
        dir.append("/");
    }
    dir.append(".build/");
    dir.append(target.target.unversioned_triple.as_str());
    dir.append("/");
    dir.append(profile);
    let lib = concat("cargo:rustc-link-lib=static=", package_name);
    proof {
        reveal_strlit("");
        assert(dir@ =~= search_directive(build_dir(package_root@, target.target.unversioned_triple@, profile@)));
    }
    let mut r: Vec<String> = Vec::new();
    r.push(dir);
    r.push(lib);
    r
}

} // verus!
