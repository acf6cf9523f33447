use crate::catalog::{
    invalid_table_name, table_name_invalid, file_name_of, loc_is, names_source_table, webui_location, webui_resolve_table_path, Loc,
    SourceFacts, SourceKind, TableLocation, file_name, data_table,
};
use crate::db::{has_id, object_fields, object_id, removed_effect, row_of, YamlDb, YamlDbError};
use crate::number::{canonical_nan, float_is_nan, Number};
use crate::numtext::{parse_i64, parse_i64_spec};
use crate::query::QueryOp;
use crate::text::{ascii_lower, ascii_lower_exec, push_char};
use crate::paths::{file_stem_of, is_yaml_path, table_name, yaml_path};
use crate::record::{fields_set, fields_view, lookup, FieldsView, Record};
use crate::text::{
    chars_eq_ignore_ascii_case, chars_of, eq_ignore_ascii_case, find_bytes, find_first,
    from_utf8_lossy, lossy_utf8, seq_contains, str_contains, str_eq, string_from_utf8, trim,
    trim_str,
};
use crate::value::{Value, ValueView};
use vstd::prelude::*;

verus! {

/// The commands of the command-line tool.
#[allow(inconsistent_fields)]
pub enum Commands {
    Create { id: String, fields: Vec<String> },
    Get { id: String, format: Option<String> },
    List { format: Option<String>, limit: Option<usize> },
    Update { id: String, fields: Vec<String> },
    Delete { id: String },
    Query { key: String, value: String, op: Option<String> },
    Search { keyword: String, key: Option<String> },
    Import { input: String },
    Export { output: String, format: String },
    Backup { output: String },
    Stats,
    Count,
    Exists { id: String },
    Clear { force: bool },
    Tables,
    Webui { host: String, port: u16 },
}

/// Commands that may name a table that has no file yet: those that create
/// records, and a forced clear.
pub open spec fn allows_new_table(command: Commands) -> bool {
    match command {
        Commands::Create { .. } => true,
        Commands::Import { .. } => true,
        Commands::Clear { force } => force,
        _ => false,
    }
}

/// Whether the command may name a table that has no file yet.
pub fn command_allows_new_table(command: &Commands) -> (r: bool)
    ensures
        r == allows_new_table(*command),
{
    match command {
        Commands::Create { .. } => true,
        Commands::Import { .. } => true,
        Commands::Clear { force } => *force,
        _ => false,
    }
}

/// The name of the `yq` executable on Windows or elsewhere.
pub fn yq_exe_name(windows: bool) -> (r: &'static str)
    ensures
        windows ==> r@ == "yq.exe"@,
        !windows ==> r@ == "yq"@,
{
    if windows {
        "yq.exe"
    } else {
        "yq"
    }
}

/// The message that a failed `yq` run leaves on standard error, trimmed,
/// or a fixed message when it left nothing.
pub open spec fn stderr_message(stderr: Seq<u8>) -> Seq<char> {
    let t = trim(lossy_utf8(stderr));
    if t.len() == 0 {
        "yq command failed"@
    } else {
        t
    }
}

/// The error message of a failed `yq` run.
pub fn command_stderr(stderr: Vec<u8>) -> (r: String)
    ensures
        r@ == stderr_message(stderr@),
{
    let message = trim_str(from_utf8_lossy(stderr.as_slice()).as_str());
    if message.as_str().is_empty() {
        "yq command failed".to_owned()
    } else {
        message
    }
}

/// The blank line that ends the headers of an HTTP request.
pub open spec fn header_terminator() -> Seq<u8> {
    seq![13u8, 10u8, 13u8, 10u8]
}

/// Where the headers of a request end: the first `\r\n\r\n`.
pub fn find_header_end(buffer: &[u8]) -> (r: Option<usize>)
    ensures
        match r {
            Some(i) => find_first(buffer@, header_terminator()) == Some(i as int),
            None => find_first(buffer@, header_terminator()) is None,
        },
{
    let terminator: Vec<u8> = vec![13u8, 10u8, 13u8, 10u8];
    assert(terminator@ =~= header_terminator());
    find_bytes(buffer, terminator.as_slice())
}

/// The table of a YAML file: its file stem.
pub fn webui_table_name(path: &str) -> (r: Option<String>)
    ensures
        match r {
            Some(s) => file_stem_of(path@) == Some(s@),
            None => file_stem_of(path@) is None,
        },
{
    table_name(path)
}

/// Whether a path names a YAML file by its extension.
pub fn webui_is_yaml_path(path: &str) -> (r: bool)
    ensures
        r == yaml_path(path@),
{
    is_yaml_path(path)
}

/// Why a URL component could not be decoded.
pub enum UrlDecodeError {
    /// A `%` without two bytes after it.
    Incomplete,
    /// The two bytes after a `%` are not UTF-8 text.
    EscapeNotUtf8(u8, u8),
    /// The two characters after a `%` are not a hexadecimal number.
    BadHexDigit,
    /// The decoded bytes are not UTF-8.
    NotUtf8(Vec<u8>),
}

/// The value of a hexadecimal digit.
pub open spec fn hex_digit(c: char) -> Option<int> {
    if '0' <= c && c <= '9' {
        Some((c as int) - ('0' as int))
    } else if 'a' <= c && c <= 'f' {
        Some((c as int) - ('a' as int) + 10)
    } else if 'A' <= c && c <= 'F' {
        Some((c as int) - ('A' as int) + 10)
    } else {
        None
    }
}

/// The number that hexadecimal digits denote, if they all are digits.
pub open spec fn hex_value(d: Seq<char>) -> Option<int>
    decreases d.len(),
{
    if d.len() == 0 {
        Some(0)
    } else {
        match (hex_value(d.drop_last()), hex_digit(d.last())) {
            (Some(a), Some(b)) => Some(a * 16 + b),
            _ => None,
        }
    }
}

/// `u8::from_str_radix(_, 16)`: an optional `+`, then one or more
/// hexadecimal digits, with a value below 256.
pub open spec fn parse_hex_u8(s: Seq<char>) -> Option<u8> {
    if s.len() == 0 || (s.len() == 1 && (s[0] == '+' || s[0] == '-')) {
        None
    } else {
        let d = if s[0] == '+' {
            s.subrange(1, s.len() as int)
        } else {
            s
        };
        match hex_value(d) {
            Some(v) => if v <= 255 {
                Some(v as u8)
            } else {
                None
            },
            None => None,
        }
    }
}

/// The byte that the escape `%` `hi` `lo` stands for.
pub open spec fn escape_value(hi: u8, lo: u8) -> Result<u8, UrlDecodeError> {
    if !vstd::utf8::valid_utf8(seq![hi, lo]) {
        Err(UrlDecodeError::EscapeNotUtf8(hi, lo))
    } else {
        match parse_hex_u8(vstd::utf8::decode_utf8(seq![hi, lo])) {
            Some(v) => Ok(v),
            None => Err(UrlDecodeError::BadHexDigit),
        }
    }
}

/// The bytes that `b[i..]` decodes to: `%` and two hexadecimal digits give
/// one byte, `+` gives a space, every other byte itself.
pub open spec fn url_bytes(b: Seq<u8>, i: int) -> Result<Seq<u8>, UrlDecodeError>
    decreases b.len() - i,
{
    if i < 0 || i >= b.len() {
        Ok(Seq::empty())
    } else if b[i] == 37u8 {
        if i + 2 >= b.len() {
            Err(UrlDecodeError::Incomplete)
        } else {
            match escape_value(b[i + 1], b[i + 2]) {
                Err(e) => Err(e),
                Ok(v) => match url_bytes(b, i + 3) {
                    Ok(rest) => Ok(seq![v] + rest),
                    Err(e) => Err(e),
                },
            }
        }
    } else {
        let c = if b[i] == 43u8 {
            32u8
        } else {
            b[i]
        };
        match url_bytes(b, i + 1) {
            Ok(rest) => Ok(seq![c] + rest),
            Err(e) => Err(e),
        }
    }
}

fn hex_digit_exec(c: char) -> (r: Option<u8>)
    ensures
        match r {
            Some(v) => hex_digit(c) == Some(v as int),
            None => hex_digit(c) is None,
        },
{
    if '0' <= c && c <= '9' {
        Some((c as u8) - 48)
    } else if 'a' <= c && c <= 'f' {
        Some((c as u8) - 97 + 10)
    } else if 'A' <= c && c <= 'F' {
        Some((c as u8) - 65 + 10)
    } else {
        None
    }
}

/// `u8::from_str_radix(_, 16)` on at most two characters.
fn parse_hex_pair(s: &Vec<char>) -> (r: Option<u8>)
    requires
        s.len() <= 2,
    ensures
        r == parse_hex_u8(s@),
{
    if s.len() == 0 {
        return None;
    }
    let c0 = s[0];
    if s.len() == 1 {
        if c0 == '+' || c0 == '-' {
            return None;
        }
        proof {
            assert(s@.drop_last() =~= Seq::<char>::empty());
            assert(hex_value(s@.drop_last()) == Some(0int));
        }
        return hex_digit_exec(c0);
    }
    let c1 = s[1];
    proof {
        let one = s@.subrange(1, 2);
        assert(one.drop_last() =~= Seq::<char>::empty());
        assert(hex_value(one.drop_last()) == Some(0int));
        assert(one.last() == c1);
        assert(s@.drop_last() =~= seq![c0]);
        assert(seq![c0].drop_last() =~= Seq::<char>::empty());
    }
    if c0 == '+' {
        return hex_digit_exec(c1);
    }
    match (hex_digit_exec(c0), hex_digit_exec(c1)) {
        (Some(a), Some(b)) => Some(a * 16 + b),
        _ => None,
    }
}

/// Once a prefix is not all digits, neither is the whole.
proof fn lemma_hex_value_none(d: Seq<char>, k: int)
    requires
        0 <= k <= d.len(),
        hex_value(d.subrange(0, k)) is None,
    ensures
        hex_value(d) is None,
    decreases d.len() - k,
{
    if k < d.len() {
        assert(d.subrange(0, k + 1).drop_last() =~= d.subrange(0, k));
        lemma_hex_value_none(d, k + 1);
    } else {
        assert(d.subrange(0, k) =~= d);
    }
}

/// What decoding a URL component gives: the text of the decoded bytes, or
/// the first error.
pub open spec fn url_decode_result(r: Result<String, UrlDecodeError>, value: Seq<char>) -> bool {
    match url_bytes(vstd::utf8::encode_utf8(value), 0) {
        Err(e) => r == Err::<String, UrlDecodeError>(e),
        Ok(bytes) => if vstd::utf8::valid_utf8(bytes) {
            r matches Ok(s) && s@ == vstd::utf8::decode_utf8(bytes)
        } else {
            r matches Err(UrlDecodeError::NotUtf8(b)) && b@ == bytes
        },
    }
}

/// The URL component decodes to text.
pub open spec fn url_decodes(value: Seq<char>) -> bool {
    url_bytes(vstd::utf8::encode_utf8(value), 0) matches Ok(bytes) && vstd::utf8::valid_utf8(bytes)
}

/// Decodes a percent-encoded URL component; `+` stands for a space.
pub fn url_decode(value: &str) -> (r: Result<String, UrlDecodeError>)
    ensures
        url_decode_result(r, value@),
{
    let b = value.as_bytes();
    let ghost bs = b@;
    assert(bs == vstd::utf8::encode_utf8(value@));
    let mut out: Vec<u8> = Vec::new();
    let mut i: usize = 0;
    while i < b.len()
        invariant
            i <= b.len(),
            bs == b@,
            bs == vstd::utf8::encode_utf8(value@),
            url_bytes(bs, 0) == (match url_bytes(bs, i as int) {
                Ok(rest) => Ok(out@ + rest),
                Err(e) => Err(e),
            }),
        decreases b.len() - i,
    {
        let byte = b[i];
        if byte == 37u8 {
            if b.len() - i <= 2 {
                assert(url_bytes(bs, i as int) == Err::<Seq<u8>, UrlDecodeError>(
                    UrlDecodeError::Incomplete,
                ));
                return Err(UrlDecodeError::Incomplete);
            }
            let hi = b[i + 1];
            let lo = b[i + 2];
            let pair: Vec<u8> = vec![hi, lo];
            assert(pair@ =~= seq![hi, lo]);
            let v = match string_from_utf8(pair) {
                Err(_) => {
                    assert(url_bytes(bs, i as int) == Err::<Seq<u8>, UrlDecodeError>(
                        UrlDecodeError::EscapeNotUtf8(hi, lo),
                    ));
                    return Err(UrlDecodeError::EscapeNotUtf8(hi, lo));
                },
                Ok(text) => {
                    let cs = chars_of(text.as_str());
                    proof {
                        assert(vstd::utf8::encode_utf8(cs@) == seq![hi, lo]) by {
                            vstd::utf8::decode_utf8_encode_utf8(seq![hi, lo]);
                        }
                        lemma_chars_le_bytes(cs@);
                    }
                    match parse_hex_pair(&cs) {
                        None => {
                            assert(url_bytes(bs, i as int) == Err::<Seq<u8>, UrlDecodeError>(
                                UrlDecodeError::BadHexDigit,
                            ));
                            return Err(UrlDecodeError::BadHexDigit);
                        },
                        Some(v) => v,
                    }
                },
            };
            let ghost before = out@;
            out.push(v);
            proof {
                match url_bytes(bs, i + 3) {
                    Ok(rest) => {
                        assert(before + (seq![v] + rest) =~= out@ + rest);
                    },
                    Err(_) => {},
                }
            }
            i += 3;
        } else {
            let c = if byte == 43u8 {
                32u8
            } else {
                byte
            };
            let ghost before = out@;
            out.push(c);
            proof {
                match url_bytes(bs, i + 1) {
                    Ok(rest) => {
                        assert(before + (seq![c] + rest) =~= out@ + rest);
                    },
                    Err(_) => {},
                }
            }
            i += 1;
        }
    }
    assert(out@ + Seq::<u8>::empty() =~= out@);
    match string_from_utf8(out) {
        Ok(s) => Ok(s),
        Err(bytes) => Err(UrlDecodeError::NotUtf8(bytes)),
    }
}

/// Every character takes at least one byte.
proof fn lemma_chars_le_bytes(cs: Seq<char>)
    ensures
        cs.len() <= vstd::utf8::encode_utf8(cs).len(),
    decreases cs.len(),
{
    if cs.len() > 0 {
        lemma_chars_le_bytes(cs.drop_first());
        assert(vstd::utf8::encode_scalar(cs[0] as u32).len() >= 1);
    }
}


/// Why the command line cannot use a table.
pub enum CliPathError {
    /// Empty, or holding a path separator, or `.` or `..`.
    InvalidName,
    /// The source is a file that does not hold the table.
    UnknownTableForFile,
    /// The source is neither a YAML file nor a directory.
    NotYamlSource,
    /// The directory has no file for the table.
    UnknownTableInDir,
}


/// The command line's resolution of a table: like the web UI's, and in a
/// directory a command that may create the table gets `table.yaml`.
pub open spec fn cli_location(f: SourceFacts, table: Seq<char>, allow_new_table: bool) -> Result<
    Loc,
    CliPathError,
> {
    if invalid_table_name(table) {
        Err(CliPathError::InvalidName)
    } else {
        match f.kind {
            SourceKind::File | SourceKind::Missing => if names_source_table(
                file_stem_of(f.path@),
                table,
            ) {
                Ok(Loc::Source)
            } else {
                Err(CliPathError::UnknownTableForFile)
            },
            SourceKind::Other => Err(CliPathError::NotYamlSource),
            SourceKind::Dir => match webui_location(f, table) {
                Ok(l) => Ok(l),
                Err(_) => if allow_new_table {
                    Ok(Loc::Joined(file_name_of(table, seq!['y', 'a', 'm', 'l'])))
                } else {
                    Err(CliPathError::UnknownTableInDir)
                },
            },
        }
    }
}

/// Resolves the table a command works on.
pub fn resolve_cli_table_path(f: &SourceFacts, table: &str, allow_new_table: bool) -> (r: Result<
    TableLocation,
    CliPathError,
>)
    ensures
        match cli_location(*f, table@, allow_new_table) {
            Ok(l) => r matches Ok(x) && loc_is(x, l),
            Err(e) => r == Err::<TableLocation, CliPathError>(e),
        },
{
    proof {
        reveal_strlit("yaml");
        assert("yaml"@ =~= seq!['y', 'a', 'm', 'l']);
    }
    if table_name_invalid(table) {
        return Err(CliPathError::InvalidName);
    }
    match f.kind {
        SourceKind::File | SourceKind::Missing => {
            let named = match table_name(f.path.as_str()) {
                Some(st) => eq_ignore_ascii_case(table, st.as_str()),
                None => false,
            };
            let data = "data".to_owned();
            proof {
                reveal_strlit("data");
                assert(data@ =~= data_table());
            }
            if eq_ignore_ascii_case(table, data.as_str()) || named {
                Ok(TableLocation::Source)
            } else {
                Err(CliPathError::UnknownTableForFile)
            }
        },
        SourceKind::Other => Err(CliPathError::NotYamlSource),
        SourceKind::Dir => match webui_resolve_table_path(f, table) {
            Ok(l) => Ok(l),
            Err(_) => if allow_new_table {
                Ok(TableLocation::Joined(file_name(table, "yaml")))
            } else {
                Err(CliPathError::UnknownTableInDir)
            },
        },
    }
}

/// Deletes a record through the web UI: the record with the id goes, or
/// the database answers `NotFound` and stays as it was.
pub fn webui_delete_record(db: &mut YamlDb, id: &str) -> (r: Result<(), YamlDbError>)
    requires
        old(db).wf(),
    ensures
        final(db).wf(),
        has_id(old(db).rows(), id@) ==> r is Ok && removed_effect(
            old(db).rows(),
            id@,
            final(db).rows(),
        ) && final(db).rows().len() == old(db).rows().len() - 1,
        !has_id(old(db).rows(), id@) ==> (r matches Err(YamlDbError::NotFound(k)) && k@ == id@)
            && final(db).rows() == old(db).rows(),
{
    db.delete(id)
}

pub open spec fn true_word() -> Seq<char> {
    seq!['t', 'r', 'u', 'e']
}

pub open spec fn false_word() -> Seq<char> {
    seq!['f', 'a', 'l', 's', 'e']
}

/// The value a command-line field value denotes: an `i64`, else what
/// `read_float` made of the text as a double, else `true` or `false` in any
/// ASCII case, else the text.
pub open spec fn field_value<F: Fn(&str) -> Option<u64>>(read_float: F, t: Seq<char>, v: ValueView) -> bool {
    match parse_i64_spec(t) {
        Some(n) => v == ValueView::Number(
            if n < 0 {
                Number::NegInt(n)
            } else {
                Number::PosInt(n as u64)
            },
        ),
        None => exists|text: &str, bits: Option<u64>|
            text@ == t && call_ensures(read_float, (text,), bits) && v == match bits {
                Some(b) => ValueView::Number(
                    Number::Float(
                        if float_is_nan(b) {
                            canonical_nan()
                        } else {
                            b
                        },
                    ),
                ),
                None => if chars_eq_ignore_ascii_case(t, true_word()) {
                    ValueView::Bool(true)
                } else if chars_eq_ignore_ascii_case(t, false_word()) {
                    ValueView::Bool(false)
                } else {
                    ValueView::String(t)
                },
            },
    }
}

/// The value a command-line field value denotes.
pub fn parse_value<F: Fn(&str) -> Option<u64>>(value: &str, read_float: &F) -> (r: Value)
    requires
        forall|t: &str| read_float.requires((t,)),
    ensures
        field_value(*read_float, value@, r@),
{
    proof {
        reveal_strlit("true");
        reveal_strlit("false");
        assert("true"@ =~= true_word());
        assert("false"@ =~= false_word());
    }
    match parse_i64(value) {
        Some(n) => Value::from_i64(n),
        None => match read_float(value) {
            Some(b) => Value::Number(Number::from_f64_bits(b)),
            None => {
                if eq_ignore_ascii_case(value, "true") {
                    Value::Bool(true)
                } else if eq_ignore_ascii_case(value, "false") {
                    Value::Bool(false)
                } else {
                    Value::String(value.to_owned())
                }
            },
        },
    }
}

/// Why a command-line field could not be read.
pub enum FieldError {
    /// The field has no `=`.
    NoEquals(String),
    /// The key before `=` is empty once trimmed.
    EmptyKey(String),
}

/// The key and value text of a `key=value` field, both trimmed.
pub open spec fn field_parts(field: Seq<char>) -> Option<(Seq<char>, Seq<char>)> {
    match find_first(field, seq!['=']) {
        None => None,
        Some(i) => Some((trim(field.subrange(0, i)), trim(field.subrange(i + 1, field.len() as int)))),
    }
}

/// The field has a `=` and a key that is not empty.
pub open spec fn field_ok(field: Seq<char>) -> bool {
    field_parts(field) matches Some((k, _)) && k.len() > 0
}

/// The key of a field.
pub open spec fn field_key(field: Seq<char>) -> Seq<char> {
    field_parts(field)->Some_0.0
}

/// The value text of a field.
pub open spec fn field_text(field: Seq<char>) -> Seq<char> {
    field_parts(field)->Some_0.1
}

/// Field `a` is the last of the first `n` fields with key `k`.
pub open spec fn last_with_key(fs: Seq<String>, k: Seq<char>, a: int, n: int) -> bool {
    &&& 0 <= a < n
    &&& field_key(fs[a]@) == k
    &&& forall|j: int| a < j < n ==> field_key(#[trigger] fs[j]@) != k
}

/// Field `i` is the first one that is not `key=value` with a key.
pub open spec fn first_bad_field(fs: Seq<String>, i: int) -> bool {
    &&& 0 <= i < fs.len()
    &&& !field_ok(fs[i]@)
    &&& forall|j: int| 0 <= j < i ==> field_ok(#[trigger] fs[j]@)
}

/// The fields `key=value`: each key set to its value in turn, a later
/// field replacing an earlier one of the same key; the first field without
/// `=` or with an empty key is refused.
pub fn parse_fields<F: Fn(&str) -> Option<u64>>(fields: &[String], read_float: &F) -> (r: Result<
    Vec<(String, Value)>,
    FieldError,
>)
    requires
        forall|t: &str| read_float.requires((t,)),
    ensures
        match r {
            Ok(d) => {
                &&& forall|i: int| 0 <= i < fields@.len() ==> field_ok(#[trigger] fields@[i]@)
                &&& forall|k: Seq<char>|
                    #[trigger] lookup(fields_view(d@), k) is Some <==> exists|i: int|
                        0 <= i < fields@.len() && field_key(fields@[i]@) == k
                &&& forall|k: Seq<char>, i: int|
                    #[trigger] last_with_key(fields@, k, i, fields@.len() as int) ==> (lookup(
                        fields_view(d@),
                        k,
                    ) matches Some(v) && field_value(*read_float, field_text(fields@[i]@), v))
            },
            Err(FieldError::NoEquals(f)) => exists|i: int|
                first_bad_field(fields@, i) && field_parts(fields@[i]@) is None && f@ == fields@[i]@,
            Err(FieldError::EmptyKey(f)) => exists|i: int|
                first_bad_field(fields@, i) && field_parts(fields@[i]@) is Some && f@ == fields@[i]@,
        },
{
    let mut rec = Record::new("");
    let mut i: usize = 0;
    while i < fields.len()
        invariant
            i <= fields.len(),
            forall|t: &str| read_float.requires((t,)),
            forall|a: int| 0 <= a < i ==> field_ok(#[trigger] fields@[a]@),
            forall|k: Seq<char>|
                #[trigger] lookup(rec.fields(), k) is Some <==> exists|a: int|
                    0 <= a < i && field_key(fields@[a]@) == k,
            forall|k: Seq<char>, a: int|
                #[trigger] last_with_key(fields@, k, a, i as int) ==> (lookup(rec.fields(), k) matches Some(
                    v,
                ) && field_value(*read_float, field_text(fields@[a]@), v)),
        decreases fields.len() - i,
    {
        let field = fields[i].as_str();
        let v = chars_of(field);
        let mut e: usize = 0;
        while e < v.len() && v[e] != '='
            invariant
                e <= v.len(),
                forall|j: int| 0 <= j < e ==> v@[j] != '=',
            decreases v.len() - e,
        {
            e += 1;
        }
        proof {
            crate::sql::lemma_find_char(v@, '=', e as int);
        }
        if e == v.len() {
            assert(first_bad_field(fields@, i as int));
            return Err(FieldError::NoEquals(fields[i].clone()));
        }
        let key = trim_str(crate::text::string_from_range(v.as_slice(), 0, e).as_str());
        if key.as_str().is_empty() {
            proof {
                assert(v@.subrange(0, e as int) =~= fields@[i as int]@.subrange(0, e as int));
                assert(first_bad_field(fields@, i as int));
            }
            return Err(FieldError::EmptyKey(fields[i].clone()));
        }
        let text = trim_str(crate::text::string_from_range(v.as_slice(), e + 1, v.len()).as_str());
        let value = parse_value(text.as_str(), read_float);
        let ghost before = rec.fields();
        rec.set_field(key.as_str(), value);
        proof {
            assert(v@.subrange(0, e as int) =~= fields@[i as int]@.subrange(0, e as int));
            assert(field_parts(fields@[i as int]@) == Some((key@, text@)));
            assert forall|k: Seq<char>|
                #[trigger] lookup(rec.fields(), k) is Some <==> exists|a: int|
                    0 <= a < i + 1 && field_key(fields@[a]@) == k by {
                if k == key@ {
                    assert(field_key(fields@[i as int]@) == k);
                } else {
                    if exists|a: int| 0 <= a < i + 1 && field_key(fields@[a]@) == k {
                        let a = choose|a: int| 0 <= a < i + 1 && field_key(fields@[a]@) == k;
                        assert(a < i);
                    }
                }
            }
            assert forall|k: Seq<char>, a: int|
                #[trigger] last_with_key(fields@, k, a, i + 1) implies (lookup(rec.fields(), k) matches Some(
                    w,
                ) && field_value(*read_float, field_text(fields@[a]@), w)) by {
                if k == key@ {
                    if a < i {
                        assert(field_key(fields@[i as int]@) == k);
                    }
                } else {
                    assert(a != i);
                    assert(last_with_key(fields@, k, a, i as int));
                }
            }
        }
        i += 1;
    }
    proof {
        assert(i == fields@.len());
        assert forall|k: Seq<char>|
            #[trigger] lookup(fields_view(rec.data@), k) is Some <==> exists|a: int|
                0 <= a < fields@.len() && field_key(fields@[a]@) == k by {
            assert(fields_view(rec.data@) == rec.fields());
        }
        assert forall|k: Seq<char>, a: int|
            #[trigger] last_with_key(fields@, k, a, fields@.len() as int) implies (lookup(
                fields_view(rec.data@),
                k,
            ) matches Some(w) && field_value(*read_float, field_text(fields@[a]@), w)) by {
            assert(last_with_key(fields@, k, a, i as int));
        }
    }
    Ok(rec.data)
}


/// The comparison a `query` command asks for.
pub enum QueryBuild {
    Query(QueryOp),
    /// An operator the command line does not know.
    UnknownOperator(String),
}

/// The query of the `query` command: `eq` by default, `ne`, `gt`, `lt`,
/// `gte`, `lte` on the value read as a field value, `contains` on the text.
pub fn build_query<F: Fn(&str) -> Option<u64>>(
    key: &str,
    value: &str,
    op: Option<&str>,
    read_float: &F,
) -> (r: QueryBuild)
    requires
        forall|t: &str| read_float.requires((t,)),
    ensures
        match op {
            None => r matches QueryBuild::Query(QueryOp::Eq(k, v)) && k@ == key@ && field_value(
                *read_float,
                value@,
                v@,
            ),
            Some(o) => if o@ == "ne"@ {
                r matches QueryBuild::Query(QueryOp::Ne(k, v)) && k@ == key@ && field_value(
                    *read_float,
                    value@,
                    v@,
                )
            } else if o@ == "gt"@ {
                r matches QueryBuild::Query(QueryOp::Gt(k, v)) && k@ == key@ && field_value(
                    *read_float,
                    value@,
                    v@,
                )
            } else if o@ == "lt"@ {
                r matches QueryBuild::Query(QueryOp::Lt(k, v)) && k@ == key@ && field_value(
                    *read_float,
                    value@,
                    v@,
                )
            } else if o@ == "gte"@ {
                r matches QueryBuild::Query(QueryOp::Gte(k, v)) && k@ == key@ && field_value(
                    *read_float,
                    value@,
                    v@,
                )
            } else if o@ == "lte"@ {
                r matches QueryBuild::Query(QueryOp::Lte(k, v)) && k@ == key@ && field_value(
                    *read_float,
                    value@,
                    v@,
                )
            } else if o@ == "contains"@ {
                r matches QueryBuild::Query(QueryOp::Contains(k, p)) && k@ == key@ && p@ == value@
            } else {
                r matches QueryBuild::UnknownOperator(x) && x@ == o@
            },
        },
{
    match op {
        None => QueryBuild::Query(QueryOp::eq(key, parse_value(value, read_float))),
        Some(o) => {
            if str_eq(o, "ne") {
                QueryBuild::Query(QueryOp::ne(key, parse_value(value, read_float)))
            } else if str_eq(o, "gt") {
                QueryBuild::Query(QueryOp::gt(key, parse_value(value, read_float)))
            } else if str_eq(o, "lt") {
                QueryBuild::Query(QueryOp::lt(key, parse_value(value, read_float)))
            } else if str_eq(o, "gte") {
                QueryBuild::Query(QueryOp::gte(key, parse_value(value, read_float)))
            } else if str_eq(o, "lte") {
                QueryBuild::Query(QueryOp::lte(key, parse_value(value, read_float)))
            } else if str_eq(o, "contains") {
                QueryBuild::Query(QueryOp::contains(key, value))
            } else {
                QueryBuild::UnknownOperator(o.to_owned())
            }
        },
    }
}

/// The kind of a file to import, by its extension.
pub enum ImportKind {
    Json,
    Yaml,
    /// Any other extension, lower-cased (empty when there is none).
    Unsupported(String),
}

/// The text with ASCII letters lower-cased.
pub open spec fn ascii_lowercase(s: Seq<char>) -> Seq<char> {
    s.map_values(|c: char| ascii_lower(c))
}

/// `str::to_ascii_lowercase`.
pub fn to_ascii_lowercase(s: &str) -> (r: String)
    ensures
        r@ == ascii_lowercase(s@),
{
    let v = chars_of(s);
    let mut out = String::new();
    let mut i: usize = 0;
    while i < v.len()
        invariant
            i <= v.len(),
            out@ == ascii_lowercase(v@.take(i as int)),
        decreases v.len() - i,
    {
        push_char(&mut out, ascii_lower_exec(v[i]));
        i += 1;
        assert(out@ =~= ascii_lowercase(v@.take(i as int)));
    }
    assert(v@.take(i as int) =~= v@);
    out
}

/// The kind of file an import reads, by its extension in ASCII lower case:
/// `json`, or `yaml` and `yml`.
pub fn import_kind(extension: Option<&str>) -> (r: ImportKind)
    ensures
        ({
            let e = match extension {
                Some(x) => ascii_lowercase(x@),
                None => Seq::empty(),
            };
            if e == "json"@ {
                r is Json
            } else if e == "yaml"@ || e == "yml"@ {
                r is Yaml
            } else {
                r matches ImportKind::Unsupported(x) && x@ == e
            }
        }),
{
    let e = match extension {
        Some(x) => to_ascii_lowercase(x),
        None => String::new(),
    };
    if str_eq(e.as_str(), "json") {
        ImportKind::Json
    } else if str_eq(e.as_str(), "yaml") || str_eq(e.as_str(), "yml") {
        ImportKind::Yaml
    } else {
        ImportKind::Unsupported(e)
    }
}

} // verus!
