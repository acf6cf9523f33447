use crate::numtext::{decimal, u64_decimal};
use crate::text::{chars_eq_ignore_ascii_case, chars_of, eq_ignore_ascii_case, push_char};
use vstd::prelude::*;

verus! {

/// The stem of a path's file name as `Path::file_stem` finds it: the last
/// component without its extension.
pub uninterp spec fn file_stem_of(path: Seq<char>) -> Option<Seq<char>>;

/// The extension of a path's file name as `Path::extension` finds it.
pub uninterp spec fn extension_of(path: Seq<char>) -> Option<Seq<char>>;

/// `Path::file_stem` on a UTF-8 path, whose parts are UTF-8 as well. The
/// result is named `file_stem_of`; how components and dots are read is not
/// stated here.
#[verifier::external_body]
pub(crate) fn path_file_stem(path: &str) -> (r: Option<String>)
    ensures
        match r {
            Some(s) => file_stem_of(path@) == Some(s@),
            None => file_stem_of(path@) is None,
        },
{
    std::path::Path::new(path).file_stem().and_then(|s| s.to_str()).map(|s| s.to_string())
}

/// `Path::extension` on a UTF-8 path. The result is named `extension_of`.
#[verifier::external_body]
pub(crate) fn path_extension(path: &str) -> (r: Option<String>)
    ensures
        match r {
            Some(s) => extension_of(path@) == Some(s@),
            None => extension_of(path@) is None,
        },
{
    std::path::Path::new(path).extension().and_then(|s| s.to_str()).map(|s| s.to_string())
}

pub open spec fn yaml_ext() -> Seq<char> {
    seq!['y', 'a', 'm', 'l']
}

pub open spec fn yml_ext() -> Seq<char> {
    seq!['y', 'm', 'l']
}

/// A path whose extension is `yaml` or `yml`, in any ASCII case.
pub open spec fn yaml_path(path: Seq<char>) -> bool {
    match extension_of(path) {
        Some(e) => chars_eq_ignore_ascii_case(e, yaml_ext()) || chars_eq_ignore_ascii_case(
            e,
            yml_ext(),
        ),
        None => false,
    }
}

/// The table that a YAML file holds: its file stem.
pub fn table_name(path: &str) -> (r: Option<String>)
    ensures
        match r {
            Some(s) => file_stem_of(path@) == Some(s@),
            None => file_stem_of(path@) is None,
        },
{
    path_file_stem(path)
}

/// Whether a path names a YAML file by its extension.
pub fn is_yaml_path(path: &str) -> (r: bool)
    ensures
        r == yaml_path(path@),
{
    proof {
        reveal_strlit("yaml");
        reveal_strlit("yml");
        assert("yaml"@ =~= yaml_ext());
        assert("yml"@ =~= yml_ext());
    }
    match path_extension(path) {
        Some(e) => eq_ignore_ascii_case(e.as_str(), "yaml") || eq_ignore_ascii_case(
            e.as_str(),
            "yml",
        ),
        None => false,
    }
}


/// The name of the temporary file a write goes through:
/// `.name.process.counter.tmp`, with `yamldb` for a path without a file
/// name.
pub open spec fn temp_name(file_name: Option<Seq<char>>, pid: u32, suffix: u64) -> Seq<char> {
    let name = match file_name {
        Some(n) => n,
        None => seq!['y', 'a', 'm', 'l', 'd', 'b'],
    };
    seq!['.'] + name + seq!['.'] + decimal(pid as nat) + seq!['.'] + decimal(suffix as nat) + seq![
        '.',
        't',
        'm',
        'p',
    ]
}

fn push_str(out: &mut String, s: &str)
    ensures
        final(out)@ == old(out)@ + s@,
{
    let v = chars_of(s);
    let mut i: usize = 0;
    let ghost start = out@;
    while i < v.len()
        invariant
            i <= v.len(),
            out@ == start + v@.take(i as int),
        decreases v.len() - i,
    {
        push_char(out, v[i]);
        i += 1;
        assert(out@ =~= start + v@.take(i as int));
    }
    assert(v@.take(i as int) =~= v@);
}

/// The name of the temporary file a write goes through.
pub fn temp_file_name(file_name: Option<&str>, pid: u32, suffix: u64) -> (r: String)
    ensures
        r@ == temp_name(
            match file_name {
                Some(n) => Some(n@),
                None => None,
            },
            pid,
            suffix,
        ),
{
    proof {
        reveal_strlit("yamldb");
        reveal_strlit(".");
        reveal_strlit(".tmp");
        assert("yamldb"@ =~= seq!['y', 'a', 'm', 'l', 'd', 'b']);
        assert("."@ =~= seq!['.']);
        assert(".tmp"@ =~= seq!['.', 't', 'm', 'p']);
    }
    let mut out = String::new();
    push_str(&mut out, ".");
    match file_name {
        Some(n) => push_str(&mut out, n),
        None => push_str(&mut out, "yamldb"),
    }
    push_str(&mut out, ".");
    push_str(&mut out, u64_decimal(pid as u64).as_str());
    push_str(&mut out, ".");
    push_str(&mut out, u64_decimal(suffix).as_str());
    push_str(&mut out, ".tmp");
    assert(out@ =~= temp_name(
        match file_name {
            Some(n) => Some(n@),
            None => None,
        },
        pid,
        suffix,
    ));
    out
}

} // verus!
