//! The layout of a routing run's directory and the checks made on it.
//!
//! A run directory holds `config/` (with the network's GeoPackage),
//! `outputs/ngen/` (lateral inflow per catchment) and `outputs/troute/`
//! (where results go).
use vstd::prelude::*;
use vstd::string::*;

verus! {

broadcast use vstd::string::group_string_axioms;

/// Appending a relative component to a path: a separator is put between the
/// two unless the path is empty or already ends with one.
pub open spec fn spec_join(base: Seq<char>, component: Seq<char>) -> Seq<char> {
    if base.len() == 0 {
        component
    } else if base.last() == '/' {
        base + component
    } else {
        base + seq!['/'] + component
    }
}

/// Appends a relative path component to a path.
pub fn join_path(base: &str, component: &str) -> (r: String)
    ensures
        r@ == spec_join(base@, component@),
{
    let n = base.unicode_len();
    if n == 0 {
        return component.to_string();
    }
    let mut r = base.to_string();
    if base.get_char(n - 1) != '/' {
        proof {
            reveal_strlit("/");
        }
        r.append("/");
    }
    r.append(component);
    r
}

/// The directories of a run.
pub struct RouteLayout {
    pub root_dir: String,
    pub csv_dir: String,
    pub config_dir: String,
    pub output_dir: String,
}

pub open spec fn spec_csv_dir(root: Seq<char>) -> Seq<char> {
    spec_join(spec_join(root, "outputs"@), "ngen"@)
}

pub open spec fn spec_config_dir(root: Seq<char>) -> Seq<char> {
    spec_join(root, "config"@)
}

pub open spec fn spec_output_dir(root: Seq<char>) -> Seq<char> {
    spec_join(spec_join(root, "outputs"@), "troute"@)
}

/// The directories of the run rooted at `root`.
pub fn route_layout(root: &str) -> (l: RouteLayout)
    ensures
        l.root_dir@ == root@,
        l.csv_dir@ == spec_csv_dir(root@),
        l.config_dir@ == spec_config_dir(root@),
        l.output_dir@ == spec_output_dir(root@),
{
    let outputs = join_path(root, "outputs");
    let csv_dir = join_path(outputs.as_str(), "ngen");
    let output_dir = join_path(outputs.as_str(), "troute");
    let config_dir = join_path(root, "config");
    RouteLayout { root_dir: root.to_string(), csv_dir, config_dir, output_dir }
}

/// What is wrong with a run directory.
pub enum LayoutError {
    /// The root does not exist or is not a directory.
    RootNotADirectory(String),
    /// These required directories are missing (in the order csv, config, output).
    MissingDirectories(Vec<String>),
    /// The config directory holds no file with the `gpkg` extension.
    NoGeopackage,
}

/// The required directories that are missing, in the order csv, config, output.
pub open spec fn spec_missing_dirs(
    layout: &RouteLayout,
    csv_ok: bool,
    config_ok: bool,
    output_ok: bool,
) -> Seq<Seq<char>> {
    let a: Seq<Seq<char>> = if csv_ok {
        seq![]
    } else {
        seq![layout.csv_dir@]
    };
    let b: Seq<Seq<char>> = if config_ok {
        seq![]
    } else {
        seq![layout.config_dir@]
    };
    let c: Seq<Seq<char>> = if output_ok {
        seq![]
    } else {
        seq![layout.output_dir@]
    };
    a + b + c
}

pub open spec fn strings_view(v: Seq<String>) -> Seq<Seq<char>> {
    v.map_values(|s: String| s@)
}

/// Checks a run directory given, for the root and for each required directory,
/// whether it exists as a directory. The root is checked first.
pub fn check_layout(
    layout: &RouteLayout,
    root_ok: bool,
    csv_ok: bool,
    config_ok: bool,
    output_ok: bool,
) -> (r: Result<(), LayoutError>)
    ensures
        r is Ok <==> root_ok && csv_ok && config_ok && output_ok,
        !root_ok ==> (r matches Err(LayoutError::RootNotADirectory(p)) && p@ == layout.root_dir@),
        root_ok && !(csv_ok && config_ok && output_ok) ==> (r matches Err(
            LayoutError::MissingDirectories(v),
        ) && strings_view(v@) == spec_missing_dirs(layout, csv_ok, config_ok, output_ok)),
{
    if !root_ok {
        return Err(LayoutError::RootNotADirectory(layout.root_dir.clone()));
    }
    let mut missing: Vec<String> = Vec::new();
    if !csv_ok {
        missing.push(layout.csv_dir.clone());
    }
    if !config_ok {
        missing.push(layout.config_dir.clone());
    }
    if !output_ok {
        missing.push(layout.output_dir.clone());
    }
    proof {
        assert(strings_view(missing@) =~= spec_missing_dirs(layout, csv_ok, config_ok, output_ok));
    }
    if missing.len() > 0 {
        Err(LayoutError::MissingDirectories(missing))
    } else {
        Ok(())
    }
}

/// Index of the last occurrence of `c` in `s`, or -1.
pub open spec fn last_index_of(s: Seq<char>, c: char) -> int
    decreases s.len(),
{
    if s.len() == 0 {
        -1
    } else if s.last() == c {
        s.len() - 1
    } else {
        last_index_of(s.drop_last(), c)
    }
}

/// The extension of a file name: what follows its last dot, provided some
/// text precedes that dot; `..` has none.
pub open spec fn spec_extension(name: Seq<char>) -> Option<Seq<char>> {
    let i = last_index_of(name, '.');
    if name == seq!['.', '.'] || i <= 0 {
        None
    } else {
        Some(name.subrange(i + 1, name.len() as int))
    }
}

proof fn lemma_last_index_bounds(s: Seq<char>, c: char)
    ensures
        -1 <= last_index_of(s, c) < s.len(),
        last_index_of(s, c) >= 0 ==> s[last_index_of(s, c)] == c,
        forall|j: int| last_index_of(s, c) < j < s.len() ==> s[j] != c,
    decreases s.len(),
{
    if s.len() > 0 {
        let rest = s.drop_last();
        lemma_last_index_bounds(rest, c);
        if s.last() != c {
            assert forall|j: int| last_index_of(s, c) < j < s.len() implies s[j] != c by {
                if j < s.len() - 1 {
                    assert(rest[j] == s[j]);
                }
            }
        }
    }
}

fn find_last_dot(name: &str) -> (i: Option<usize>)
    ensures
        match i {
            Some(k) => k == last_index_of(name@, '.') && k < name@.len(),
            None => last_index_of(name@, '.') == -1,
        },
{
    let n = name.unicode_len();
    let mut k: usize = n;
    proof {
        lemma_last_index_bounds(name@, '.');
    }
    while k > 0
        invariant
            k <= n,
            n == name@.len(),
            forall|j: int| k <= j < n ==> name@[j] != '.',
        decreases k,
    {
        if name.get_char(k - 1) == '.' {
            proof {
                lemma_last_index_bounds(name@, '.');
                let li = last_index_of(name@, '.');
                assert(li >= k - 1);
                if li > k - 1 {
                    assert(name@[li] == '.');
                }
            }
            return Some(k - 1);
        }
        k = k - 1;
    }
    proof {
        lemma_last_index_bounds(name@, '.');
    }
    None
}

fn is_parent_dir(name: &str) -> (b: bool)
    ensures
        b == (name@ == seq!['.', '.']),
{
    if name.unicode_len() != 2 {
        proof {
            if name@ == seq!['.', '.'] {
                assert(name@.len() == 2);
            }
        }
        return false;
    }
    let b = name.get_char(0) == '.' && name.get_char(1) == '.';
    proof {
        if b {
            assert(name@ =~= seq!['.', '.']);
        }
    }
    b
}

/// The extension of a file name, if it has one.
pub fn file_extension(name: &str) -> (r: Option<String>)
    ensures
        match r {
            Some(e) => spec_extension(name@) == Some(e@),
            None => spec_extension(name@) is None,
        },
{
    if is_parent_dir(name) {
        return None;
    }
    match find_last_dot(name) {
        Some(i) => {
            if i == 0 {
                None
            } else {
                let n = name.unicode_len();
                Some(name.substring_char(i + 1, n).to_string())
            }
        },
        None => None,
    }
}

/// Whether a file name has exactly the extension `ext`.
pub fn has_extension(name: &str, ext: &str) -> (b: bool)
    ensures
        b == (spec_extension(name@) == Some(ext@)),
{
    match file_extension(name) {
        Some(e) => {
            let a = e.as_str();
            let n = a.unicode_len();
            if n != ext.unicode_len() {
                return false;
            }
            let mut i: usize = 0;
            while i < n
                invariant
                    a@ == e@,
                    spec_extension(name@) == Some(e@),
                    n == a@.len(),
                    n == ext@.len(),
                    i <= n,
                    forall|j: int| 0 <= j < i ==> a@[j] == ext@[j],
                decreases n - i,
            {
                if a.get_char(i) != ext.get_char(i) {
                    proof {
                        assert(a@[i as int] != ext@[i as int]);
                        assert(a@ != ext@);
                        assert(e@ == a@);
                        assert(Some(e@) != Some(ext@));
                    }
                    return false;
                }
                i = i + 1;
            }
            proof {
                assert(a@ =~= ext@);
            }
            true
        },
        None => false,
    }
}

/// Whether a file name is that of a GeoPackage.
pub open spec fn is_geopackage(name: Seq<char>) -> bool {
    spec_extension(name) == Some("gpkg"@)
}

/// The first of `names` that is a GeoPackage, if any.
pub fn find_geopackage(names: &Vec<String>) -> (r: Option<usize>)
    ensures
        match r {
            Some(i) => i < names@.len() && is_geopackage(names@[i as int]@) && forall|j: int|
                0 <= j < i ==> !is_geopackage(#[trigger] names@[j]@),
            None => forall|j: int| 0 <= j < names@.len() ==> !is_geopackage(#[trigger] names@[j]@),
        },
{
    let mut i: usize = 0;
    while i < names.len()
        invariant
            i <= names@.len(),
            forall|j: int| 0 <= j < i ==> !is_geopackage(#[trigger] names@[j]@),
        decreases names@.len() - i,
    {
        if has_extension(names[i].as_str(), "gpkg") {
            return Some(i);
        }
        i = i + 1;
    }
    None
}

/// The GeoPackage chosen among the files of the config directory.
pub fn select_geopackage(names: &Vec<String>) -> (r: Result<usize, LayoutError>)
    ensures
        match r {
            Ok(i) => i < names@.len() && is_geopackage(names@[i as int]@) && forall|j: int|
                0 <= j < i ==> !is_geopackage(#[trigger] names@[j]@),
            Err(e) => e is NoGeopackage && forall|j: int|
                0 <= j < names@.len() ==> !is_geopackage(#[trigger] names@[j]@),
        },
{
    match find_geopackage(names) {
        Some(i) => Ok(i),
        None => Err(LayoutError::NoGeopackage),
    }
}

} // verus!
