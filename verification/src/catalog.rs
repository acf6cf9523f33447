use crate::paths::{file_stem_of, is_yaml_path, table_name, yaml_path};
use crate::text::{
    chars_eq_ignore_ascii_case, chars_of, compare_str, eq_ignore_ascii_case, lemma_str_order_reverse,
    lowercase, push_char, seq_contains, str_contains, str_eq, str_lt, str_views, string_from_chars,
    to_lowercase, trim, trim_str,
};
use crate::number::Order;
use vstd::prelude::*;

verus! {

/// What a source path is on disk.
pub enum SourceKind {
    File,
    Dir,
    Missing,
    Other,
}

/// A directory entry: its path and whether it is a file.
pub struct EntryFacts {
    pub path: String,
    pub is_file: bool,
}

/// What resolving a table in a source needs to know of the disk: the
/// source, whether `table.yaml` and `table.yml` in it are files, and its
/// entries (none when it could not be listed).
pub struct SourceFacts {
    pub path: String,
    pub kind: SourceKind,
    pub yaml_file: bool,
    pub yml_file: bool,
    pub entries: Option<Vec<EntryFacts>>,
}

/// Where a table's file is.
pub enum TableLocation {
    /// The source file itself.
    Source,
    /// The file of this name in the source directory.
    Joined(String),
    /// The directory entry at this index.
    Entry(usize),
}

/// Where in `keys` (sorted) a key goes after the keys not greater than it.
pub open spec fn insert_pos(keys: Seq<Seq<char>>, k: Seq<char>, j: int) -> int
    decreases keys.len() - j,
{
    if j < 0 || j >= keys.len() {
        keys.len() as int
    } else if str_lt(k, keys[j]) {
        j
    } else {
        insert_pos(keys, k, j + 1)
    }
}

pub open spec fn lower_keys(s: Seq<Seq<char>>) -> Seq<Seq<char>> {
    s.map_values(|x: Seq<char>| lowercase(x))
}

/// The names sorted by their lower-case forms, names with equal forms in
/// their first order: a stable sort.
pub open spec fn sort_by_lower(s: Seq<Seq<char>>) -> Seq<Seq<char>>
    decreases s.len(),
{
    if s.len() == 0 {
        s
    } else {
        let t = sort_by_lower(s.drop_last());
        t.insert(insert_pos(lower_keys(t), lowercase(s.last()), 0), s.last())
    }
}

pub proof fn lemma_insert_pos(keys: Seq<Seq<char>>, k: Seq<char>, j: int)
    requires
        0 <= j <= keys.len(),
    ensures
        j <= insert_pos(keys, k, j) <= keys.len(),
    decreases keys.len() - j,
{
    if j < keys.len() && !str_lt(k, keys[j]) {
        lemma_insert_pos(keys, k, j + 1);
    }
}

pub proof fn lemma_sort_by_lower_len(s: Seq<Seq<char>>)
    ensures
        sort_by_lower(s).len() == s.len(),
    decreases s.len(),
{
    if s.len() > 0 {
        lemma_sort_by_lower_len(s.drop_last());
        let t = sort_by_lower(s.drop_last());
        lemma_insert_pos(lower_keys(t), lowercase(s.last()), 0);
    }
}

/// Sorts names by their lower-case forms, keeping the order of names with
/// equal forms.
pub fn sort_tables(names: Vec<String>) -> (r: Vec<String>)
    ensures
        str_views(r@) == sort_by_lower(str_views(names@)),
{
    let mut out: Vec<String> = Vec::new();
    let mut keys: Vec<String> = Vec::new();
    let mut i: usize = 0;
    let n = names.len();
    let ghost all = str_views(names@);
    proof {
        assert(all.take(0) =~= Seq::<Seq<char>>::empty());
        assert(str_views(out@) =~= Seq::<Seq<char>>::empty());
    }
    while i < n
        invariant
            i <= n,
            n == names.len(),
            all == str_views(names@),
            str_views(out@) == sort_by_lower(all.take(i as int)),
            keys@.len() == out@.len(),
            forall|j: int| 0 <= j < keys@.len() ==> (#[trigger] keys@[j])@ == lowercase(out@[j]@),
        decreases n - i,
    {
        let name = names[i].clone();
        let key = to_lowercase(name.as_str());
        let ghost sorted = str_views(out@);
        proof {
            assert(lower_keys(sorted).len() == keys@.len());
            assert forall|j: int| 0 <= j < keys@.len() implies lower_keys(sorted)[j] == keys@[j]@ by {}
        }
        let mut p: usize = 0;
        while p < keys.len() && !(compare_str(key.as_str(), keys[p].as_str()) == Order::Less)
            invariant
                p <= keys.len(),
                insert_pos(lower_keys(sorted), key@, 0) == insert_pos(lower_keys(sorted), key@, p as int),
                lower_keys(sorted).len() == keys@.len(),
                forall|j: int| 0 <= j < keys@.len() ==> lower_keys(sorted)[j] == (#[trigger] keys@[j])@,
            decreases keys.len() - p,
        {
            p += 1;
        }
        proof {
            if p < keys.len() {
                assert(str_lt(key@, lower_keys(sorted)[p as int]));
            }
            assert(all.take(i + 1).drop_last() =~= all.take(i as int));
            assert(all.take(i + 1).last() == name@);
            assert(key@ == lowercase(name@));
        }
        let ghost old_out = out@;
        let ghost old_keys = keys@;
        out.insert(p, name);
        keys.insert(p, key);
        proof {
            assert(str_views(out@) =~= sorted.insert(p as int, name@));
            assert forall|j: int| 0 <= j < keys@.len() implies (#[trigger] keys@[j])@ == lowercase(
                out@[j]@,
            ) by {
                if j < p {
                    assert(keys@[j] == old_keys[j] && out@[j] == old_out[j]);
                } else if j > p {
                    assert(keys@[j] == old_keys[j - 1] && out@[j] == old_out[j - 1]);
                }
            }
        }
        i += 1;
    }
    assert(all.take(n as int) =~= all);
    out
}

/// The table names of the YAML files among the entries of a directory.
pub open spec fn entry_tables(entries: Seq<EntryFacts>) -> Seq<Seq<char>>
    decreases entries.len(),
{
    if entries.len() == 0 {
        Seq::empty()
    } else {
        let rest = entry_tables(entries.drop_last());
        let e = entries.last();
        if e.is_file && yaml_path(e.path@) && file_stem_of(e.path@) is Some {
            rest.push(file_stem_of(e.path@)->Some_0)
        } else {
            rest
        }
    }
}

pub open spec fn data_table() -> Seq<char> {
    seq!['d', 'a', 't', 'a']
}

/// The tables of a directory: its YAML files by name, sorted.
fn directory_tables(entries: &Vec<EntryFacts>) -> (r: Vec<String>)
    ensures
        str_views(r@) == sort_by_lower(entry_tables(entries@)),
{
    let mut names: Vec<String> = Vec::new();
    let mut i: usize = 0;
    proof {
        assert(entries@.take(0) =~= Seq::<EntryFacts>::empty());
        assert(str_views(names@) =~= Seq::<Seq<char>>::empty());
    }
    while i < entries.len()
        invariant
            i <= entries.len(),
            str_views(names@) == entry_tables(entries@.take(i as int)),
        decreases entries.len() - i,
    {
        let e = &entries[i];
        proof {
            assert(entries@.take(i + 1).drop_last() =~= entries@.take(i as int));
        }
        if e.is_file && is_yaml_path(e.path.as_str()) {
            match table_name(e.path.as_str()) {
                Some(name) => {
                    let ghost before = names@;
                    names.push(name);
                    assert(str_views(names@) =~= str_views(before).push(name@));
                },
                None => {},
            }
        }
        i += 1;
    }
    assert(entries@.take(i as int) =~= entries@);
    sort_tables(names)
}

fn data_name() -> (r: String)
    ensures
        r@ == data_table(),
{
    proof {
        reveal_strlit("data");
    }
    let r = "data".to_owned();
    assert(r@ =~= data_table());
    r
}

/// The tables a driver connection offers: `data` for a file, the YAML files
/// of a directory, nothing otherwise.
pub fn list_tables(kind: SourceKind, entries: Vec<EntryFacts>) -> (r: Vec<String>)
    ensures
        str_views(r@) == (match kind {
            SourceKind::File => seq![data_table()],
            SourceKind::Dir => sort_by_lower(entry_tables(entries@)),
            _ => Seq::empty(),
        }),
{
    match kind {
        SourceKind::File => {
            let v = vec![data_name()];
            assert(str_views(v@) =~= seq![data_table()]);
            v
        },
        SourceKind::Dir => directory_tables(&entries),
        _ => {
            let v: Vec<String> = Vec::new();
            assert(str_views(v@) =~= Seq::<Seq<char>>::empty());
            v
        },
    }
}

/// The tables the web UI and the command line offer: `data` for a file or
/// a path that does not exist yet, the YAML files of a directory, nothing
/// otherwise.
pub fn webui_list_tables(kind: SourceKind, entries: Vec<EntryFacts>) -> (r: Vec<String>)
    ensures
        str_views(r@) == (match kind {
            SourceKind::File => seq![data_table()],
            SourceKind::Missing => seq![data_table()],
            SourceKind::Dir => sort_by_lower(entry_tables(entries@)),
            SourceKind::Other => Seq::empty(),
        }),
{
    match kind {
        SourceKind::File | SourceKind::Missing => {
            let v = vec![data_name()];
            assert(str_views(v@) =~= seq![data_table()]);
            v
        },
        SourceKind::Dir => directory_tables(&entries),
        SourceKind::Other => {
            let v: Vec<String> = Vec::new();
            assert(str_views(v@) =~= Seq::<Seq<char>>::empty());
            v
        },
    }
}


/// Where a table's file is, as a specification value.
pub enum Loc {
    Source,
    Joined(Seq<char>),
    Entry(int),
}

/// The location is the one described.
pub open spec fn loc_is(l: TableLocation, v: Loc) -> bool {
    match (l, v) {
        (TableLocation::Source, Loc::Source) => true,
        (TableLocation::Joined(n), Loc::Joined(m)) => n@ == m,
        (TableLocation::Entry(i), Loc::Entry(j)) => i == j,
        _ => false,
    }
}

/// An entry that holds table `table`: a YAML file (a file on disk too, when
/// `need_file`) whose stem equals the table name without regard to ASCII
/// case.
pub open spec fn entry_holds(e: EntryFacts, table: Seq<char>, need_file: bool) -> bool {
    (!need_file || e.is_file) && yaml_path(e.path@) && (file_stem_of(e.path@) matches Some(n)
        && chars_eq_ignore_ascii_case(n, table))
}

/// The first entry from index `j` on that holds the table.
pub open spec fn first_entry(es: Seq<EntryFacts>, table: Seq<char>, need_file: bool, j: int) -> Option<int>
    decreases es.len() - j,
{
    if j < 0 || j >= es.len() {
        None
    } else if entry_holds(es[j], table, need_file) {
        Some(j)
    } else {
        first_entry(es, table, need_file, j + 1)
    }
}

/// The file name `table.ext`.
pub open spec fn file_name_of(table: Seq<char>, ext: Seq<char>) -> Seq<char> {
    table + seq!['.'] + ext
}

/// The table that a source file holds: `data`, or its stem.
pub open spec fn names_source_table(stem: Option<Seq<char>>, table: Seq<char>) -> bool {
    chars_eq_ignore_ascii_case(table, data_table()) || (stem matches Some(st)
        && chars_eq_ignore_ascii_case(table, st))
}

/// A table name that cannot name a file directly in the source directory:
/// blank, holding a path separator, or `.` or `..`.
pub open spec fn invalid_table_name(table: Seq<char>) -> bool {
    trim(table).len() == 0 || seq_contains(table, seq!['/']) || seq_contains(table, seq!['\\'])
        || table == seq!['.'] || table == seq!['.', '.']
}

/// Whether a table name cannot name a file directly in the source
/// directory.
pub fn table_name_invalid(table: &str) -> (r: bool)
    ensures
        r == invalid_table_name(table@),
{
    proof {
        reveal_strlit("/");
        reveal_strlit("\\");
        reveal_strlit(".");
        reveal_strlit("..");
        assert("/"@ =~= seq!['/']);
        assert("\\"@ =~= seq!['\\']);
        assert("."@ =~= seq!['.']);
        assert(".."@ =~= seq!['.', '.']);
    }
    trim_str(table).as_str().is_empty() || str_contains(table, "/") || str_contains(table, "\\")
        || str_eq(table, ".") || str_eq(table, "..")
}

/// The driver's resolution of a table: the source file when the table is
/// `data` or the file's stem; in a directory, for a name that stays inside
/// it, `table.yaml`, `table.yml`, or the first YAML file among its entries
/// whose stem is the table name.
pub open spec fn odbc_location(f: SourceFacts, table: Seq<char>) -> Option<Loc> {
    match f.kind {
        SourceKind::File => match file_stem_of(f.path@) {
            None => None,
            Some(st) => if names_source_table(Some(st), table) {
                Some(Loc::Source)
            } else {
                None
            },
        },
        SourceKind::Dir => if invalid_table_name(table) {
            None
        } else if f.yaml_file {
            Some(Loc::Joined(file_name_of(table, seq!['y', 'a', 'm', 'l'])))
        } else if f.yml_file {
            Some(Loc::Joined(file_name_of(table, seq!['y', 'm', 'l'])))
        } else {
            match f.entries {
                None => None,
                Some(es) => match first_entry(es@, table, true, 0) {
                    Some(i) => Some(Loc::Entry(i)),
                    None => None,
                },
            }
        },
        _ => None,
    }
}

/// Why the web UI could not find a table.
pub enum ResolveError {
    UnknownTable,
    NotYamlSource,
    ListingFailed,
}

/// The web UI's resolution of a table: like the driver's, but a source
/// that does not exist yet counts as a file holding `data`, a source file
/// without a stem still holds `data`, and a source that is neither file nor
/// directory gives its own error.
pub open spec fn webui_location(f: SourceFacts, table: Seq<char>) -> Result<Loc, ResolveError> {
    match f.kind {
        SourceKind::File | SourceKind::Missing => if names_source_table(
            file_stem_of(f.path@),
            table,
        ) {
            Ok(Loc::Source)
        } else {
            Err(ResolveError::UnknownTable)
        },
        SourceKind::Other => Err(ResolveError::NotYamlSource),
        SourceKind::Dir => if invalid_table_name(table) {
            Err(ResolveError::UnknownTable)
        } else if f.yaml_file {
            Ok(Loc::Joined(file_name_of(table, seq!['y', 'a', 'm', 'l'])))
        } else if f.yml_file {
            Ok(Loc::Joined(file_name_of(table, seq!['y', 'm', 'l'])))
        } else {
            match f.entries {
                None => Err(ResolveError::ListingFailed),
                Some(es) => match first_entry(es@, table, true, 0) {
                    Some(i) => Ok(Loc::Entry(i)),
                    None => Err(ResolveError::UnknownTable),
                },
            }
        },
    }
}

/// The string `table.ext`.
pub fn file_name(table: &str, ext: &str) -> (r: String)
    ensures
        r@ == file_name_of(table@, ext@),
{
    let a = chars_of(table);
    let b = chars_of(ext);
    let mut v: Vec<char> = Vec::new();
    let mut i: usize = 0;
    while i < a.len()
        invariant
            i <= a.len(),
            v@ == a@.take(i as int),
        decreases a.len() - i,
    {
        v.push(a[i]);
        i += 1;
        assert(v@ =~= a@.take(i as int));
    }
    v.push('.');
    let mut j: usize = 0;
    while j < b.len()
        invariant
            j <= b.len(),
            i == a.len(),
            v@ == a@ + seq!['.'] + b@.take(j as int),
        decreases b.len() - j,
    {
        v.push(b[j]);
        j += 1;
        assert(v@ =~= a@ + seq!['.'] + b@.take(j as int));
    }
    assert(a@.take(i as int) =~= a@);
    assert(b@.take(j as int) =~= b@);
    string_from_chars(v.as_slice())
}

/// The first entry that holds the table.
fn find_entry(es: &Vec<EntryFacts>, table: &str, need_file: bool) -> (r: Option<usize>)
    ensures
        match r {
            Some(i) => first_entry(es@, table@, need_file, 0) == Some(i as int),
            None => first_entry(es@, table@, need_file, 0) is None,
        },
{
    let mut i: usize = 0;
    while i < es.len()
        invariant
            i <= es.len(),
            first_entry(es@, table@, need_file, 0) == first_entry(es@, table@, need_file, i as int),
        decreases es.len() - i,
    {
        let e = &es[i];
        if (!need_file || e.is_file) && is_yaml_path(e.path.as_str()) {
            match table_name(e.path.as_str()) {
                Some(n) => {
                    if eq_ignore_ascii_case(n.as_str(), table) {
                        proof {
                            lemma_ci_symmetric(n@, table@);
                        }
                        return Some(i);
                    }
                    proof {
                        lemma_ci_symmetric(n@, table@);
                    }
                },
                None => {},
            }
        }
        i += 1;
    }
    None
}

pub proof fn lemma_ci_symmetric(a: Seq<char>, b: Seq<char>)
    ensures
        chars_eq_ignore_ascii_case(a, b) == chars_eq_ignore_ascii_case(b, a),
{
}

/// Whether `table` names the table of a source file with the given stem.
fn source_table_named(stem: Option<String>, table: &str) -> (r: bool)
    ensures
        r == names_source_table(
            match stem {
                Some(s) => Some(s@),
                None => None,
            },
            table@,
        ),
{
    let data = data_name();
    if eq_ignore_ascii_case(table, data.as_str()) {
        return true;
    }
    match stem {
        Some(st) => eq_ignore_ascii_case(table, st.as_str()),
        None => false,
    }
}

fn yaml_name(table: &str, long: bool) -> (r: String)
    ensures
        r@ == file_name_of(
            table@,
            if long {
                seq!['y', 'a', 'm', 'l']
            } else {
                seq!['y', 'm', 'l']
            },
        ),
{
    proof {
        reveal_strlit("yaml");
        reveal_strlit("yml");
        assert("yaml"@ =~= seq!['y', 'a', 'm', 'l']);
        assert("yml"@ =~= seq!['y', 'm', 'l']);
    }
    if long {
        file_name(table, "yaml")
    } else {
        file_name(table, "yml")
    }
}

/// The driver's resolution of a table in its source.
pub fn resolve_table_path(f: &SourceFacts, table: &str) -> (r: Option<TableLocation>)
    ensures
        match odbc_location(*f, table@) {
            Some(l) => r matches Some(x) && loc_is(x, l),
            None => r is None,
        },
{
    match f.kind {
        SourceKind::File => {
            let stem = table_name(f.path.as_str());
            match stem {
                None => None,
                Some(st) => {
                    if source_table_named(Some(st), table) {
                        Some(TableLocation::Source)
                    } else {
                        None
                    }
                },
            }
        },
        SourceKind::Dir => {
            if table_name_invalid(table) {
                None
            } else if f.yaml_file {
                Some(TableLocation::Joined(yaml_name(table, true)))
            } else if f.yml_file {
                Some(TableLocation::Joined(yaml_name(table, false)))
            } else {
                match &f.entries {
                    None => None,
                    Some(es) => match find_entry(es, table, true) {
                        Some(i) => Some(TableLocation::Entry(i)),
                        None => None,
                    },
                }
            }
        },
        _ => None,
    }
}

/// The web UI's resolution of a table in its source.
pub fn webui_resolve_table_path(f: &SourceFacts, table: &str) -> (r: Result<
    TableLocation,
    ResolveError,
>)
    ensures
        match webui_location(*f, table@) {
            Ok(l) => r matches Ok(x) && loc_is(x, l),
            Err(e) => r == Err::<TableLocation, ResolveError>(e),
        },
{
    match f.kind {
        SourceKind::File | SourceKind::Missing => {
            if source_table_named(table_name(f.path.as_str()), table) {
                Ok(TableLocation::Source)
            } else {
                Err(ResolveError::UnknownTable)
            }
        },
        SourceKind::Other => Err(ResolveError::NotYamlSource),
        SourceKind::Dir => {
            if table_name_invalid(table) {
                Err(ResolveError::UnknownTable)
            } else if f.yaml_file {
                Ok(TableLocation::Joined(yaml_name(table, true)))
            } else if f.yml_file {
                Ok(TableLocation::Joined(yaml_name(table, false)))
            } else {
                match &f.entries {
                    None => Err(ResolveError::ListingFailed),
                    Some(es) => match find_entry(es, table, true) {
                        Some(i) => Ok(TableLocation::Entry(i)),
                        None => Err(ResolveError::UnknownTable),
                    },
                }
            }
        },
    }
}

/// Where the web UI writes a table: where it reads it, or, in a directory
/// that has no file for it yet, a new `table.yaml` for a name that stays
/// inside the directory.
pub open spec fn webui_write_location(f: SourceFacts, table: Seq<char>) -> Result<Loc, ResolveError> {
    match webui_location(f, table) {
        Ok(l) => Ok(l),
        Err(e) => if f.kind is Dir && !invalid_table_name(table) {
            Ok(Loc::Joined(file_name_of(table, seq!['y', 'a', 'm', 'l'])))
        } else {
            Err(e)
        },
    }
}

/// The web UI's resolution of a table it writes to.
pub fn webui_write_table_path(f: &SourceFacts, table: &str) -> (r: Result<TableLocation, ResolveError>)
    ensures
        match webui_write_location(*f, table@) {
            Ok(l) => r matches Ok(x) && loc_is(x, l),
            Err(e) => r == Err::<TableLocation, ResolveError>(e),
        },
{
    match webui_resolve_table_path(f, table) {
        Ok(l) => Ok(l),
        Err(e) => {
            let is_dir = match f.kind {
                SourceKind::Dir => true,
                _ => false,
            };
            if is_dir && !table_name_invalid(table) {
                Ok(TableLocation::Joined(yaml_name(table, true)))
            } else {
                Err(e)
            }
        },
    }
}

} // verus!
