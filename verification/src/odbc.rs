use crate::db::{
    lemma_filter_step, query_pred, result_columns, some_field_named, sorted_insert, strs_contain,
    strs_sorted, YamlDb,
};
use crate::number::{float_exponent, float_fraction, float_is_nan, float_is_nan_exec, sign_bit, Number};
use crate::numtext::{decimal, i64_decimal, signed_decimal, u64_decimal};
use crate::query::QueryOp;
use crate::record::{fields_set, lookup, FieldsView, Record};
use crate::result::deref_rows;
use crate::sql::{
    dsn_path, matches_pattern, opt_str_view, parse_dsn, parse_query, pattern_admits, query_op_of,
    query_tree, Parse,
};
use crate::text::{chars_of, push_char, str_eq, str_views};
use crate::catalog::{file_name_of, file_name};
use crate::value::{Value, ValueView};
use vstd::prelude::*;

verus! {

pub const SQL_SUCCESS: i32 = 0;

pub const SQL_ERROR: i32 = -1;

pub const SQL_NO_DATA: i32 = 100;

pub const SQL_HANDLE_ENV: i32 = 1;

pub const SQL_HANDLE_DBC: i32 = 2;

pub const SQL_HANDLE_STMT: i32 = 3;

pub const SQL_CHAR: i32 = 1;

pub const SQL_INTEGER: i32 = 4;

pub const SQL_VARCHAR: i32 = 12;

/// The index of the first free slot, or the length when every slot is taken.
pub open spec fn first_free_from<T>(s: Seq<Option<T>>, i: int) -> int
    decreases s.len() - i,
{
    if i < 0 || i >= s.len() {
        s.len() as int
    } else if s[i] is None {
        i
    } else {
        first_free_from(s, i + 1)
    }
}

pub open spec fn first_free<T>(s: Seq<Option<T>>) -> int {
    first_free_from(s, 0)
}

/// The slots after `item` takes the first free one, or a new one at the end.
pub open spec fn placed<T>(s: Seq<Option<T>>, item: T) -> Seq<Option<T>> {
    if first_free(s) < s.len() {
        s.update(first_free(s), Some(item))
    } else {
        s.push(Some(item))
    }
}

pub proof fn lemma_first_free_from<T>(s: Seq<Option<T>>, i: int)
    requires
        0 <= i <= s.len(),
    ensures
        i <= first_free_from(s, i) <= s.len(),
        first_free_from(s, i) < s.len() ==> s[first_free_from(s, i)] is None,
        forall|j: int| i <= j < first_free_from(s, i) ==> s[j] is Some,
    decreases s.len() - i,
{
    if i < s.len() && s[i] is Some {
        lemma_first_free_from(s, i + 1);
    }
}

/// Puts `item` in the first free slot, or in a new slot at the end, and
/// answers the slot's index.
pub fn slot_alloc<T>(store: &mut Vec<Option<T>>, item: T) -> (r: usize)
    ensures
        r == first_free(old(store)@),
        final(store)@ == placed(old(store)@, item),
        r < final(store)@.len(),
        r < usize::MAX,
{
    let mut i: usize = 0;
    while i < store.len()
        invariant
            i <= store.len(),
            store@ == old(store)@,
            first_free(old(store)@) == first_free_from(old(store)@, i as int),
        decreases store.len() - i,
    {
        if store[i].is_none() {
            store.set(i, Some(item));
            assert(store.len() > i);
            return i;
        }
        i += 1;
    }
    store.push(Some(item));
    let n = store.len();
    n - 1
}

/// The slot index that a handle stands for: one less than the handle.
pub open spec fn handle_index(h: usize) -> int {
    if h == 0 {
        0
    } else {
        h - 1
    }
}

fn index_of_handle(h: usize) -> (r: usize)
    ensures
        r == handle_index(h),
{
    if h == 0 {
        0
    } else {
        h - 1
    }
}

/// Slot `i` holds an entry.
pub open spec fn live<T>(s: Seq<Option<T>>, i: int) -> bool {
    0 <= i < s.len() && s[i] is Some
}

/// A connection: the file or directory it reads once connected.
pub struct DbcEntry {
    pub source: Option<String>,
}

/// A statement: its connection, its result rows and columns, and how many
/// rows have been fetched.
pub struct StmtEntry {
    pub dbc_id: usize,
    pub results: Vec<Record>,
    pub current_row: usize,
    pub columns: Vec<String>,
}

/// What allocating a handle gave.
pub enum Allocated {
    Failed,
    Environment,
    Handle(usize),
}

/// The connections and statements of the ODBC driver.
pub struct OdbcState {
    pub dbcs: Vec<Option<DbcEntry>>,
    pub stmts: Vec<Option<StmtEntry>>,
}

/// A fresh statement entry on connection `dbc`.
pub open spec fn fresh_stmt(e: StmtEntry, dbc: int) -> bool {
    e.dbc_id == dbc && e.results@.len() == 0 && e.current_row == 0 && e.columns@.len() == 0
}

impl OdbcState {
    /// No connections and no statements.
    pub fn new() -> (r: OdbcState)
        ensures
            r.dbcs@.len() == 0,
            r.stmts@.len() == 0,
    {
        OdbcState { dbcs: Vec::new(), stmts: Vec::new() }
    }

    /// `SQLAllocHandle`: an environment needs no slot; a connection takes a
    /// slot; a statement takes a slot on a live connection. The handle is
    /// the slot's index plus one.
    pub fn alloc_handle(&mut self, handle_type: i32, input: usize) -> (r: Allocated)
        ensures
            r matches Allocated::Handle(h) ==> h > 0,
            handle_type == SQL_HANDLE_ENV ==> r is Environment && *final(self) == *old(self),
            handle_type == SQL_HANDLE_DBC && input == 0 ==> r is Failed && *final(self) == *old(self),
            handle_type == SQL_HANDLE_DBC && input != 0 ==> r == Allocated::Handle(
                (first_free(old(self).dbcs@) + 1) as usize,
            ) && final(self).dbcs@ == placed(old(self).dbcs@, DbcEntry { source: None })
                && final(self).stmts == old(self).stmts,
            handle_type == SQL_HANDLE_STMT && (input == 0 || !live(
                old(self).dbcs@,
                handle_index(input),
            )) ==> r is Failed && *final(self) == *old(self),
            handle_type == SQL_HANDLE_STMT && input != 0 && live(
                old(self).dbcs@,
                handle_index(input),
            ) ==> ({
                let k = first_free(old(self).stmts@);
                &&& r == Allocated::Handle((k + 1) as usize)
                &&& final(self).dbcs == old(self).dbcs
                &&& final(self).stmts@.len() == (if k < old(self).stmts@.len() {
                    old(self).stmts@.len() as int
                } else {
                    old(self).stmts@.len() + 1int
                })
                &&& final(self).stmts@[k] matches Some(e) && fresh_stmt(e, handle_index(input))
                &&& forall|j: int|
                    0 <= j < old(self).stmts@.len() && j != k ==> final(self).stmts@[j] == old(self).stmts@[j]
            }),
            handle_type != SQL_HANDLE_ENV && handle_type != SQL_HANDLE_DBC && handle_type
                != SQL_HANDLE_STMT ==> r is Failed && *final(self) == *old(self),
    {
        if handle_type == SQL_HANDLE_ENV {
            Allocated::Environment
        } else if handle_type == SQL_HANDLE_DBC {
            if input == 0 {
                return Allocated::Failed;
            }
            let id = slot_alloc(&mut self.dbcs, DbcEntry { source: None });
            proof {
                lemma_first_free_from(old(self).dbcs@, 0);
            }
            Allocated::Handle(id + 1)
        } else if handle_type == SQL_HANDLE_STMT {
            if input == 0 {
                return Allocated::Failed;
            }
            let dbc_id = index_of_handle(input);
            let valid = dbc_id < self.dbcs.len() && self.dbcs[dbc_id].is_some();
            if !valid {
                return Allocated::Failed;
            }
            let entry = StmtEntry {
                dbc_id,
                results: Vec::new(),
                current_row: 0,
                columns: Vec::new(),
            };
            let id = slot_alloc(&mut self.stmts, entry);
            proof {
                lemma_first_free_from(old(self).stmts@, 0);
            }
            Allocated::Handle(id + 1)
        } else {
            Allocated::Failed
        }
    }

    /// `SQLFreeHandle`: empties the slot of a connection or statement
    /// handle; an environment has none.
    pub fn free_handle(&mut self, handle_type: i32, handle: usize) -> (r: i32)
        ensures
            handle == 0 ==> r == SQL_ERROR && *final(self) == *old(self),
            handle != 0 && handle_type == SQL_HANDLE_ENV ==> r == SQL_SUCCESS && *final(self)
                == *old(self),
            handle != 0 && handle_type == SQL_HANDLE_DBC ==> r == SQL_SUCCESS && final(self).stmts
                == old(self).stmts && final(self).dbcs@ == (if handle_index(handle) < old(self).dbcs@.len() {
                old(self).dbcs@.update(handle_index(handle), None)
            } else {
                old(self).dbcs@
            }),
            handle != 0 && handle_type == SQL_HANDLE_STMT ==> r == SQL_SUCCESS && final(self).dbcs
                == old(self).dbcs && final(self).stmts@ == (if handle_index(handle) < old(self).stmts@.len() {
                old(self).stmts@.update(handle_index(handle), None)
            } else {
                old(self).stmts@
            }),
            handle != 0 && handle_type != SQL_HANDLE_ENV && handle_type != SQL_HANDLE_DBC
                && handle_type != SQL_HANDLE_STMT ==> r == SQL_ERROR && *final(self) == *old(self),
    {
        if handle == 0 {
            return SQL_ERROR;
        }
        let id = index_of_handle(handle);
        if handle_type == SQL_HANDLE_ENV {
            SQL_SUCCESS
        } else if handle_type == SQL_HANDLE_DBC {
            if id < self.dbcs.len() {
                self.dbcs.set(id, None);
            }
            SQL_SUCCESS
        } else if handle_type == SQL_HANDLE_STMT {
            if id < self.stmts.len() {
                self.stmts.set(id, None);
            }
            SQL_SUCCESS
        } else {
            SQL_ERROR
        }
    }

    /// `SQLConnect`, once the source path is known and whether it exists:
    /// a live connection whose source exists takes it.
    pub fn connect(&mut self, handle: usize, path: String, path_exists: bool) -> (r: i32)
        ensures
            (handle == 0 || !live(old(self).dbcs@, handle_index(handle)) || !path_exists) ==> r
                == SQL_ERROR && *final(self) == *old(self),
            (handle != 0 && live(old(self).dbcs@, handle_index(handle)) && path_exists) ==> r
                == SQL_SUCCESS && final(self).stmts == old(self).stmts && final(self).dbcs@ == old(self).dbcs@.update(handle_index(handle), Some(DbcEntry { source: Some(path) })),
    {
        if handle == 0 {
            return SQL_ERROR;
        }
        let id = index_of_handle(handle);
        if id >= self.dbcs.len() || self.dbcs[id].is_none() {
            return SQL_ERROR;
        }
        if !path_exists {
            return SQL_ERROR;
        }
        self.dbcs.set(id, Some(DbcEntry { source: Some(path) }));
        SQL_SUCCESS
    }

    /// `SQLDisconnect`: a live connection forgets its source.
    pub fn disconnect(&mut self, handle: usize) -> (r: i32)
        ensures
            (handle == 0 || !live(old(self).dbcs@, handle_index(handle))) ==> r == SQL_ERROR
                && *final(self) == *old(self),
            (handle != 0 && live(old(self).dbcs@, handle_index(handle))) ==> r == SQL_SUCCESS
                && final(self).stmts == old(self).stmts && final(self).dbcs@ == old(self).dbcs@.update(handle_index(handle), Some(DbcEntry { source: None })),
    {
        if handle == 0 {
            return SQL_ERROR;
        }
        let id = index_of_handle(handle);
        if id >= self.dbcs.len() || self.dbcs[id].is_none() {
            return SQL_ERROR;
        }
        self.dbcs.set(id, Some(DbcEntry { source: None }));
        SQL_SUCCESS
    }

    /// The live statement behind a handle.
    pub open spec fn stmt_at(&self, handle: usize) -> Option<StmtEntry> {
        if handle != 0 && live(self.stmts@, handle_index(handle)) {
            self.stmts@[handle_index(handle)]
        } else {
            None
        }
    }

    /// `SQLFetch`: moves to the next result row while there is one.
    pub fn fetch(&mut self, handle: usize) -> (r: i32)
        ensures
            old(self).stmt_at(handle) is None ==> r == SQL_ERROR && *final(self) == *old(self),
            old(self).stmt_at(handle) matches Some(e) ==> final(self).dbcs == old(self).dbcs && (if e.current_row
                < e.results@.len() {
                r == SQL_SUCCESS && final(self).stmts@ == old(self).stmts@.update(
                    handle_index(handle),
                    Some(StmtEntry { current_row: (e.current_row + 1) as usize, ..e }),
                )
            } else {
                r == SQL_NO_DATA && final(self).stmts@ == old(self).stmts@
            }),
    {
        if handle == 0 {
            return SQL_ERROR;
        }
        let id = index_of_handle(handle);
        if id >= self.stmts.len() || self.stmts[id].is_none() {
            return SQL_ERROR;
        }
        let mut slot = None;
        std::mem::swap(&mut slot, &mut self.stmts[id]);
        let mut e = slot.unwrap();
        let r = if e.current_row < e.results.len() {
            e.current_row = e.current_row + 1;
            SQL_SUCCESS
        } else {
            SQL_NO_DATA
        };
        self.stmts.set(id, Some(e));
        r
    }

    /// `SQLNumResultCols`: the number of result columns.
    pub fn num_result_cols(&self, handle: usize) -> (r: Option<usize>)
        ensures
            match self.stmt_at(handle) {
                Some(e) => r == Some(e.columns@.len() as usize),
                None => r is None,
            },
    {
        if handle == 0 {
            return None;
        }
        let id = index_of_handle(handle);
        if id >= self.stmts.len() {
            return None;
        }
        match &self.stmts[id] {
            Some(e) => Some(e.columns.len()),
            None => None,
        }
    }

    /// `SQLRowCount`: the number of result rows.
    pub fn row_count(&self, handle: usize) -> (r: Option<usize>)
        ensures
            match self.stmt_at(handle) {
                Some(e) => r == Some(e.results@.len() as usize),
                None => r is None,
            },
    {
        if handle == 0 {
            return None;
        }
        let id = index_of_handle(handle);
        if id >= self.stmts.len() {
            return None;
        }
        match &self.stmts[id] {
            Some(e) => Some(e.results.len()),
            None => None,
        }
    }

    /// `SQLColAttribute`: whether the statement handle is live.
    pub fn col_attribute(&self, handle: usize) -> (r: bool)
        ensures
            r == self.stmt_at(handle) is Some,
    {
        if handle == 0 {
            return false;
        }
        let id = index_of_handle(handle);
        id < self.stmts.len() && self.stmts[id].is_some()
    }

    /// `SQLDescribeCol`: the name of column `column_number`, counting from 1.
    pub fn describe_col(&self, handle: usize, column_number: i32) -> (r: Option<String>)
        requires
            column_number > i32::MIN,
        ensures
            match self.stmt_at(handle) {
                Some(e) => {
                    let c = (column_number - 1) as usize;
                    if c < e.columns@.len() {
                        r matches Some(name) && name@ == e.columns@[c as int]@
                    } else {
                        r is None
                    }
                },
                None => r is None,
            },
    {
        if handle == 0 {
            return None;
        }
        let id = index_of_handle(handle);
        if id >= self.stmts.len() {
            return None;
        }
        match &self.stmts[id] {
            Some(e) => {
                let c = (column_number - 1) as usize;
                if c >= e.columns.len() {
                    None
                } else {
                    Some(e.columns[c].clone())
                }
            },
            None => None,
        }
    }

    /// The source of the connection that a live statement belongs to.
    pub open spec fn statement_source(&self, handle: usize) -> Option<Seq<char>> {
        match self.stmt_at(handle) {
            Some(e) => if live(self.dbcs@, e.dbc_id as int) {
                match self.dbcs@[e.dbc_id as int]->Some_0.source {
                    Some(s) => Some(s@),
                    None => None,
                }
            } else {
                None
            },
            None => None,
        }
    }

    /// The source of the connection that a live statement belongs to.
    pub fn source_for_statement(&self, handle: usize) -> (r: Option<String>)
        ensures
            match r {
                Some(x) => self.statement_source(handle) == Some(x@),
                None => self.statement_source(handle) is None,
            },
    {
        if handle == 0 {
            return None;
        }
        let id = index_of_handle(handle);
        if id >= self.stmts.len() {
            return None;
        }
        let dbc_id = match &self.stmts[id] {
            Some(e) => e.dbc_id,
            None => {
                return None;
            },
        };
        if dbc_id >= self.dbcs.len() {
            return None;
        }
        match &self.dbcs[dbc_id] {
            Some(d) => match &d.source {
                Some(s) => Some(s.clone()),
                None => None,
            },
            None => None,
        }
    }

    /// Gives a live statement new results, with no row fetched yet.
    pub fn set_statement_results(
        &mut self,
        handle: usize,
        records: Vec<Record>,
        columns: Vec<String>,
    ) -> (r: i32)
        ensures
            old(self).stmt_at(handle) is None ==> r == SQL_ERROR && *final(self) == *old(self),
            old(self).stmt_at(handle) matches Some(e) ==> r == SQL_SUCCESS && final(self).dbcs
                == old(self).dbcs && final(self).stmts@ == old(self).stmts@.update(
                handle_index(handle),
                Some(StmtEntry { dbc_id: e.dbc_id, results: records, current_row: 0, columns }),
            ),
    {
        if handle == 0 {
            return SQL_ERROR;
        }
        let id = index_of_handle(handle);
        if id >= self.stmts.len() {
            return SQL_ERROR;
        }
        let dbc_id = match &self.stmts[id] {
            Some(e) => e.dbc_id,
            None => {
                return SQL_ERROR;
            },
        };
        self.stmts.set(
            id,
            Some(StmtEntry { dbc_id, results: records, current_row: 0, columns }),
        );
        SQL_SUCCESS
    }
}


/// A record as its id and fields.
pub open spec fn record_view(r: Record) -> (Seq<char>, FieldsView) {
    (r.id@, r.fields())
}

pub open spec fn rows_view(s: Seq<Record>) -> Seq<(Seq<char>, FieldsView)> {
    s.map_values(|r: Record| record_view(r))
}

/// The text of a result cell, or what only a formatter of doubles or of
/// JSON can write.
pub enum Cell {
    Text(String),
    FiniteFloat(u64),
    Json(Value),
}

/// The cell that the value of a column gives: strings as they are, integers
/// in decimal, NaN and infinities in YAML's words, booleans, `NULL` for
/// null, nothing for a missing column; finite doubles and composite values
/// are left to a formatter.
pub open spec fn cell_is(c: Cell, v: Option<ValueView>) -> bool {
    match v {
        None => c matches Cell::Text(t) && t@ == Seq::<char>::empty(),
        Some(ValueView::String(s)) => c matches Cell::Text(t) && t@ == s,
        Some(ValueView::Number(Number::PosInt(u))) => c matches Cell::Text(t) && t@ == decimal(
            u as nat,
        ),
        Some(ValueView::Number(Number::NegInt(i))) => c matches Cell::Text(t) && t@
            == signed_decimal(i as int),
        Some(ValueView::Number(Number::Float(b))) => if float_is_nan(b) {
            c matches Cell::Text(t) && t@ == ".nan"@
        } else if float_exponent(b) == 0x7ff && float_fraction(b) == 0 {
            c matches Cell::Text(t) && t@ == (if b as nat >= sign_bit() {
                "-.inf"@
            } else {
                ".inf"@
            })
        } else {
            c == Cell::FiniteFloat(b)
        },
        Some(ValueView::Bool(b)) => c matches Cell::Text(t) && t@ == (if b {
            "true"@
        } else {
            "false"@
        }),
        Some(ValueView::Null) => c matches Cell::Text(t) && t@ == "NULL"@,
        Some(w) => c matches Cell::Json(x) && x@ == w,
    }
}

/// The cell of column `col` of a result row.
pub fn val_str(rec: &Record, col: &str) -> (r: Cell)
    ensures
        cell_is(r, lookup(rec.fields(), col@)),
{
    match rec.get(col) {
        None => Cell::Text(String::new()),
        Some(v) => match v {
            Value::String(s) => Cell::Text(s.clone()),
            Value::Number(Number::PosInt(u)) => Cell::Text(u64_decimal(*u)),
            Value::Number(Number::NegInt(i)) => Cell::Text(i64_decimal(*i)),
            Value::Number(Number::Float(b)) => {
                let b = *b;
                if float_is_nan_exec(b) {
                    Cell::Text(".nan".to_owned())
                } else if (b / 0x10_0000_0000_0000) % 0x800 == 0x7ff && b % 0x10_0000_0000_0000
                    == 0 {
                    if b >= 0x8000_0000_0000_0000 {
                        Cell::Text("-.inf".to_owned())
                    } else {
                        Cell::Text(".inf".to_owned())
                    }
                } else {
                    Cell::FiniteFloat(b)
                }
            },
            Value::Bool(b) => if *b {
                Cell::Text("true".to_owned())
            } else {
                Cell::Text("false".to_owned())
            },
            Value::Null => Cell::Text("NULL".to_owned()),
            _ => Cell::Json(v.deep_clone()),
        },
    }
}

/// How many bytes of a value of `len` bytes fit a buffer of `buffer_length`
/// bytes, which keeps one for the terminating NUL.
pub fn copy_len(len: usize, buffer_length: i32) -> (r: usize)
    requires
        buffer_length > 0,
    ensures
        r == (if len < buffer_length - 1 {
            len as int
        } else {
            buffer_length - 1
        }),
{
    let max = (buffer_length - 1) as usize;
    if len < max {
        len
    } else {
        max
    }
}

/// What executing a statement needs next.
pub enum ExecPlan {
    /// The statement is refused.
    Failed,
    /// Read `table` from `source` and select its rows that meet `op`.
    Read { source: String, table: String, op: QueryOp },
}

/// The name of the column that holds a row's id.
pub open spec fn id_column() -> Seq<char> {
    seq!['i', 'd']
}

/// The keys of rows: `id` where there is a row, and every field name.
pub open spec fn row_key(rows: Seq<Record>, k: Seq<char>) -> bool {
    (rows.len() > 0 && k == id_column()) || some_field_named(rows, k)
}

/// The keys of records, in increasing order, each once.
pub open spec fn columns_of(c: Seq<String>, rows: Seq<Record>) -> bool {
    &&& strs_sorted(c)
    &&& forall|k: Seq<char>| #[trigger] strs_contain(c, k) <==> row_key(rows, k)
}

/// The field names of records, in increasing order, each once: the
/// columns a table's catalog lists.
pub open spec fn field_columns_of(c: Seq<String>, rows: Seq<Record>) -> bool {
    &&& strs_sorted(c)
    &&& forall|k: Seq<char>| #[trigger] strs_contain(c, k) <==> some_field_named(rows, k)
}

/// The columns of result rows: their keys, `id` among them, in increasing
/// order, each once.
pub fn query_columns(records: &[Record]) -> (r: Vec<String>)
    ensures
        columns_of(r@, records@),
{
    let mut c = result_columns(records);
    if records.len() > 0 {
        proof {
            reveal_strlit("id");
        }
        let id = "id".to_owned();
        assert(id@ =~= id_column());
        sorted_insert(&mut c, id);
    }
    c
}

/// The cell of column `col` of a result row: the id for `id`, else the
/// field's value.
pub open spec fn row_cell_is(c: Cell, rec: Record, col: Seq<char>) -> bool {
    if col == id_column() {
        c matches Cell::Text(t) && t@ == rec.id@
    } else {
        cell_is(c, lookup(rec.fields(), col))
    }
}

/// The cell of column `col` of a result row.
pub fn row_cell(rec: &Record, col: &str) -> (r: Cell)
    ensures
        row_cell_is(r, *rec, col@),
{
    proof {
        reveal_strlit("id");
        assert("id"@ =~= id_column());
    }
    if str_eq(col, "id") {
        Cell::Text(rec.id.clone())
    } else {
        val_str(rec, col)
    }
}

impl OdbcState {
    /// `SQLExecDirect`, up to the reading of the table: the statement is
    /// parsed, and must belong to a live connection with a source.
    pub fn plan_exec<F: Fn(&str) -> Option<u64>>(
        &self,
        handle: usize,
        query: &str,
        read_float: &F,
    ) -> (r: ExecPlan)
        requires
            forall|t: &str| read_float.requires((t,)),
        ensures
            query_tree(query@) is Malformed ==> r is Failed,
            query_tree(query@) is Rejected ==> r is Failed,
            query_tree(query@) matches Parse::Parsed((table, cond)) ==> match self.statement_source(
                handle,
            ) {
                None => r is Failed,
                Some(src) => r matches ExecPlan::Read { source, table: t, op } && source@ == src
                    && t@ == table && query_op_of(op, cond, *read_float),
            },
    {
        let parsed = match parse_query(query, read_float) {
            Parse::Malformed => {
                return ExecPlan::Failed;
            },
            Parse::Rejected => {
                return ExecPlan::Failed;
            },
            Parse::Parsed(pq) => pq,
        };
        match self.source_for_statement(handle) {
            None => ExecPlan::Failed,
            Some(source) => ExecPlan::Read { source, table: parsed.table, op: parsed.op },
        }
    }

    /// `SQLExecDirect`, once the table is read: a live statement gets the
    /// rows that meet the condition, in id order, and their keys (`id` and
    /// their field names) as columns.
    pub fn finish_exec(&mut self, handle: usize, db: &YamlDb, op: &QueryOp) -> (r: i32)
        ensures
            old(self).stmt_at(handle) is None ==> r == SQL_ERROR && *final(self) == *old(self),
            old(self).stmt_at(handle) matches Some(e) ==> ({
                &&& r == SQL_SUCCESS
                &&& final(self).dbcs == old(self).dbcs
                &&& final(self).stmts@.len() == old(self).stmts@.len()
                &&& forall|j: int|
                    0 <= j < old(self).stmts@.len() && j != handle_index(handle) ==> final(self).stmts@[j] == old(self).stmts@[j]
                &&& final(self).stmts@[handle_index(handle)] matches Some(n) && n.dbc_id == e.dbc_id
                    && n.current_row == 0 && rows_view(n.results@) == rows_view(
                    db.rows().filter(query_pred(*op)),
                ) && columns_of(n.columns@, n.results@)
            }),
    {
        let selected = db.query(op);
        let refs = selected.to_vec();
        let ghost want = db.rows().filter(query_pred(*op));
        let mut records: Vec<Record> = Vec::new();
        let mut i: usize = 0;
        while i < refs.len()
            invariant
                i <= refs.len(),
                deref_rows(refs@) == want,
                records@.len() == i,
                rows_view(records@) == rows_view(want.take(i as int)),
            decreases refs.len() - i,
        {
            let c = refs[i].deep_clone();
            let ghost before = records@;
            records.push(c);
            proof {
                assert(want[i as int] == *refs@[i as int]);
                let a = rows_view(records@);
                let b = rows_view(want.take(i + 1));
                assert forall|j: int| 0 <= j < a.len() implies a[j] == b[j] by {
                    if j < i {
                        assert(records@[j] == before[j]);
                        assert(a[j] == rows_view(before)[j]);
                        assert(rows_view(want.take(i as int))[j] == b[j]);
                    }
                }
                assert(a =~= b);
            }
            i += 1;
        }
        assert(want.take(i as int) =~= want);
        let columns = query_columns(records.as_slice());
        self.set_statement_results(handle, records, columns)
    }

    /// `SQLGetData`: the cell of column `column_number` (counting from 1)
    /// in the row fetched last.
    pub fn get_data(&self, handle: usize, column_number: i32) -> (r: Option<Cell>)
        requires
            column_number > i32::MIN,
        ensures
            match self.stmt_at(handle) {
                None => r is None,
                Some(e) => {
                    let c = (column_number - 1) as usize;
                    if e.current_row == 0 || e.current_row > e.results@.len() || c
                        >= e.columns@.len() {
                        r is None
                    } else {
                        r matches Some(cell) && row_cell_is(
                            cell,
                            e.results@[e.current_row - 1],
                            e.columns@[c as int]@,
                        )
                    }
                },
            },
    {
        if handle == 0 {
            return None;
        }
        let id = index_of_handle(handle);
        if id >= self.stmts.len() {
            return None;
        }
        match &self.stmts[id] {
            None => None,
            Some(e) => {
                if e.current_row == 0 || e.current_row > e.results.len() {
                    return None;
                }
                let row = e.current_row - 1;
                let c = (column_number - 1) as usize;
                if c >= e.columns.len() {
                    return None;
                }
                Some(row_cell(&e.results[row], e.columns[c].as_str()))
            },
        }
    }
}


/// The number a non-negative count gives as `i64`.
pub open spec fn count_number(n: i64) -> Number {
    if n < 0 {
        Number::NegInt(n)
    } else {
        Number::PosInt(n as u64)
    }
}

/// The names the pattern admits, in order.
pub open spec fn admitted(names: Seq<Seq<char>>, pattern: Option<Seq<char>>) -> Seq<Seq<char>>
    decreases names.len(),
{
    if names.len() == 0 {
        names
    } else {
        let r = admitted(names.drop_last(), pattern);
        if pattern_admits(names.last(), pattern) {
            r.push(names.last())
        } else {
            r
        }
    }
}

/// The catalog row of a table.
pub open spec fn table_row(t: Seq<char>) -> (Seq<char>, FieldsView) {
    (
        t,
        fields_set(
            fields_set(Seq::empty(), "TABLE_NAME"@, ValueView::String(t)),
            "TABLE_TYPE"@,
            ValueView::String("TABLE"@),
        ),
    )
}

/// The catalog row of column `col` of a table, at position `pos`.
pub open spec fn column_row(table: Seq<char>, col: Seq<char>, pos: int) -> (Seq<char>, FieldsView) {
    (
        file_name_of(table, col),
        fields_set(
            fields_set(
                fields_set(
                    fields_set(Seq::empty(), "TABLE_NAME"@, ValueView::String(table)),
                    "COLUMN_NAME"@,
                    ValueView::String(col),
                ),
                "TYPE_NAME"@,
                ValueView::String("VARCHAR"@),
            ),
            "ORDINAL_POSITION"@,
            ValueView::Number(count_number(pos as i64)),
        ),
    )
}

/// The names the pattern admits.
pub fn tables_matching(names: &Vec<String>, pattern: Option<&str>) -> (r: Vec<String>)
    ensures
        str_views(r@) == admitted(str_views(names@), opt_str_view(pattern)),
{
    let ghost all = str_views(names@);
    let mut out: Vec<String> = Vec::new();
    let mut i: usize = 0;
    assert(all.take(0) =~= Seq::<Seq<char>>::empty());
    assert(str_views(out@) =~= Seq::<Seq<char>>::empty());
    while i < names.len()
        invariant
            i <= names.len(),
            all == str_views(names@),
            str_views(out@) == admitted(all.take(i as int), opt_str_view(pattern)),
        decreases names.len() - i,
    {
        assert(all.take(i + 1).drop_last() =~= all.take(i as int));
        assert(all.take(i + 1).last() == names@[i as int]@);
        if matches_pattern(names[i].as_str(), pattern) {
            let ghost before = out@;
            out.push(names[i].clone());
            assert(str_views(out@) =~= str_views(before).push(names@[i as int]@));
        }
        i += 1;
    }
    assert(all.take(i as int) =~= all);
    out
}

/// The catalog rows of the tables the pattern admits.
pub fn table_records(tables: &Vec<String>, pattern: Option<&str>) -> (r: Vec<Record>)
    ensures
        rows_view(r@) == admitted(str_views(tables@), opt_str_view(pattern)).map_values(
            |t: Seq<char>| table_row(t),
        ),
{
    let names = tables_matching(tables, pattern);
    let ghost want = str_views(names@);
    let mut out: Vec<Record> = Vec::new();
    let mut i: usize = 0;
    while i < names.len()
        invariant
            i <= names.len(),
            want == str_views(names@),
            out@.len() == i,
            forall|j: int| 0 <= j < i ==> record_view(#[trigger] out@[j]) == table_row(want[j]),
        decreases names.len() - i,
    {
        let t = names[i].as_str();
        let mut rec = Record::new(t);
        assert(rec.fields() =~= Seq::<(Seq<char>, ValueView)>::empty());
        rec.set_field("TABLE_NAME", Value::from_str_slice(t));
        rec.set_field("TABLE_TYPE", Value::from_str_slice("TABLE"));
        let ghost before = out@;
        out.push(rec);
        proof {
            assert(want[i as int] == t@);
            assert forall|j: int| 0 <= j < i + 1 implies record_view(#[trigger] out@[j]) == table_row(want[j]) by {
                if j < i {
                    assert(out@[j] == before[j]);
                }
            }
        }
        i += 1;
    }
    proof {
        let a = rows_view(out@);
        let b = want.map_values(|t: Seq<char>| table_row(t));
        assert forall|j: int| 0 <= j < a.len() implies a[j] == b[j] by {
            assert(a[j] == record_view(out@[j]));
        }
        assert(a =~= b);
    }
    out
}

/// The catalog rows of the field columns of a table that the pattern
/// admits, numbered from 1 in increasing order of name.
pub fn column_records(table: &str, db: &YamlDb, column_pattern: Option<&str>) -> (r: Vec<Record>)
    ensures
        exists|c: Seq<String>|
            field_columns_of(c, db.rows()) && rows_view(r@) == ({
                let names = admitted(str_views(c), opt_str_view(column_pattern));
                Seq::new(names.len(), |i: int| column_row(table@, names[i], i + 1))
            }),
{
    let cols = db.field_names();
    let names = tables_matching(&cols, column_pattern);
    let ghost want = str_views(names@);
    let mut out: Vec<Record> = Vec::new();
    let mut i: usize = 0;
    while i < names.len()
        invariant
            i <= names.len(),
            want == str_views(names@),
            out@.len() == i,
            forall|j: int| 0 <= j < i ==> record_view(#[trigger] out@[j]) == column_row(table@, want[j], j + 1),
        decreases names.len() - i,
    {
        let col = names[i].as_str();
        let mut rec = Record::new(file_name(table, col).as_str());
        assert(rec.fields() =~= Seq::<(Seq<char>, ValueView)>::empty());
        rec.set_field("TABLE_NAME", Value::from_str_slice(table));
        rec.set_field("COLUMN_NAME", Value::from_str_slice(col));
        rec.set_field("TYPE_NAME", Value::from_str_slice("VARCHAR"));
        rec.set_field("ORDINAL_POSITION", Value::from_i64(#[verifier::truncate] ((i + 1) as i64)));
        let ghost before = out@;
        out.push(rec);
        proof {
            assert(want[i as int] == col@);
            assert forall|j: int| 0 <= j < i + 1 implies record_view(#[trigger] out@[j]) == column_row(table@, want[j], j + 1) by {
                if j < i {
                    assert(out@[j] == before[j]);
                }
            }
        }
        i += 1;
    }
    proof {
        let a = rows_view(out@);
        let b = Seq::new(want.len(), |i: int| column_row(table@, want[i], i + 1));
        assert forall|j: int| 0 <= j < a.len() implies a[j] == b[j] by {
            assert(a[j] == record_view(out@[j]));
        }
        assert(a =~= b);
        assert(field_columns_of(cols@, db.rows()));
    }
    out
}


/// The source a connection string names: its `DBQ` or `FILE` path, else
/// the whole string.
pub fn connect_path(dsn: &str) -> (r: String)
    ensures
        match dsn_path(dsn@) {
            Some(p) => r@ == p,
            None => r@ == dsn@,
        },
{
    match parse_dsn(dsn) {
        Some(p) => p,
        None => dsn.to_owned(),
    }
}

/// A live statement got new results and columns, with no row fetched; any
/// other handle is an error that changes nothing.
pub open spec fn results_set(
    old: OdbcState,
    new: OdbcState,
    handle: usize,
    r: i32,
    rows: Seq<(Seq<char>, FieldsView)>,
    cols: Seq<Seq<char>>,
) -> bool {
    &&& old.stmt_at(handle) is None ==> r == SQL_ERROR && new == old
    &&& old.stmt_at(handle) matches Some(e) ==> ({
        &&& r == SQL_SUCCESS
        &&& new.dbcs == old.dbcs
        &&& new.stmts@.len() == old.stmts@.len()
        &&& forall|j: int|
            0 <= j < old.stmts@.len() && j != handle_index(handle) ==> new.stmts@[j] == old.stmts@[j]
        &&& new.stmts@[handle_index(handle)] matches Some(n) && n.dbc_id == e.dbc_id
            && n.current_row == 0 && rows_view(n.results@) == rows && str_views(n.columns@) == cols
    })
}

pub open spec fn table_columns() -> Seq<Seq<char>> {
    seq!["TABLE_NAME"@, "TABLE_TYPE"@]
}

pub open spec fn column_columns() -> Seq<Seq<char>> {
    seq!["TABLE_NAME"@, "COLUMN_NAME"@, "TYPE_NAME"@, "ORDINAL_POSITION"@]
}

impl OdbcState {
    /// `SQLTables`, once the tables of the source are listed: a live
    /// statement gets a row per table the pattern admits.
    pub fn catalog_tables(&mut self, handle: usize, tables: &Vec<String>, pattern: Option<&str>) -> (r: i32)
        ensures
            results_set(
                *old(self),
                *final(self),
                handle,
                r,
                admitted(str_views(tables@), opt_str_view(pattern)).map_values(
                    |t: Seq<char>| table_row(t),
                ),
                table_columns(),
            ),
    {
        let records = table_records(tables, pattern);
        let columns = vec!["TABLE_NAME".to_owned(), "TABLE_TYPE".to_owned()];
        let ghost rv = rows_view(records@);
        assert(str_views(columns@) =~= table_columns());
        self.set_statement_results(handle, records, columns)
    }

    /// `SQLColumns`, once the column rows of the tables are gathered: a
    /// live statement gets them.
    pub fn catalog_columns(&mut self, handle: usize, records: Vec<Record>) -> (r: i32)
        ensures
            results_set(*old(self), *final(self), handle, r, rows_view(records@), column_columns()),
    {
        let columns = vec![
            "TABLE_NAME".to_owned(),
            "COLUMN_NAME".to_owned(),
            "TYPE_NAME".to_owned(),
            "ORDINAL_POSITION".to_owned(),
        ];
        assert(str_views(columns@) =~= column_columns());
        self.set_statement_results(handle, records, columns)
    }
}

} // verus!
