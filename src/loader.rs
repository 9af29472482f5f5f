//! The record loader: header lookup, the two-pass reference resolution of budgets and
//! costs, and the year filter.
use vstd::prelude::*;
use vstd::string::*;
use crate::model::{Project, amount_ok, opt_int};
use crate::parse::{
    parse_date_spec, parse_decimal, parse_decimal_spec, parse_int, parse_int_spec,
    try_parse_date,
};
use crate::text::{lower_of, to_lower, trim, trim_spec};

verus! {

/// Decimal places of money amounts (centavos).
pub const MONEY_PLACES: usize = 2;

/// Decimal places of coordinates (millionths of a degree).
pub const COORD_PLACES: usize = 6;

/// The first capture group of the first match of the regular expression `pattern` in
/// `text`, as the `regex` crate finds it; `None` also for a pattern that does not compile.
pub uninterp spec fn first_capture(pattern: Seq<char>, text: Seq<char>) -> Option<Seq<char>>;

/// Relies on `regex::Regex::new` and `Regex::captures`: the first capture group of the
/// leftmost match, which depends on the pattern and the text alone.
#[verifier::external_body]
fn capture_group(pattern: &str, text: &str) -> (r: Option<String>)
    ensures
        r matches Some(s) ==> first_capture(pattern@, text@) == Some(s@),
        r is None ==> first_capture(pattern@, text@) is None,
{
    let re = match regex::Regex::new(pattern) {
        Ok(re) => re,
        Err(_) => return None,
    };
    match re.captures(text) {
        Some(caps) => match caps.get(1) {
            Some(m) => Some(m.as_str().to_string()),
            None => None,
        },
        None => None,
    }
}

/// A budget or cost text that points at another record by contract identifier.
pub open spec fn cluster_pattern() -> Seq<char> {
    "Clustered with Contract ID\\s+([\\w\\-.]+)"@
}

/// A budget or cost text that points at another record by project identifier.
pub open spec fn myca_pattern() -> Seq<char> {
    "MYCA with Project ID\\s+([\\w\\-.]+)"@
}

/// The texts of a row of strings.
pub open spec fn texts(row: Seq<String>) -> Seq<Seq<char>> {
    row.map_values(|s: String| s@)
}

/// The texts of every row.
pub open spec fn table_texts(rows: Seq<Vec<String>>) -> Seq<Seq<Seq<char>>> {
    rows.map_values(|r: Vec<String>| texts(r@))
}

/// A header names the column `name`, ignoring case and surrounding white space.
pub open spec fn header_matches(h: Seq<char>, name: Seq<char>) -> bool {
    lower_of(trim_spec(h)) == lower_of(name)
}

/// `i` is the last header that names `name` (a later duplicate wins).
pub open spec fn is_last_match(hs: Seq<Seq<char>>, name: Seq<char>, i: int) -> bool {
    &&& 0 <= i < hs.len()
    &&& header_matches(hs[i], name)
    &&& forall|j: int| i < j < hs.len() ==> !header_matches(#[trigger] hs[j], name)
}

/// The index of the column `name`, if a header names it.
pub open spec fn column_of(hs: Seq<Seq<char>>, name: Seq<char>) -> Option<int> {
    if exists|i: int| is_last_match(hs, name, i) {
        Some(choose|i: int| is_last_match(hs, name, i))
    } else {
        None
    }
}

pub open spec fn opt_usize(o: Option<usize>) -> Option<int> {
    match o {
        Some(v) => Some(v as int),
        None => None,
    }
}

/// Finds the column that a header row gives to `name`.
pub fn column_index(headers: &Vec<String>, name: &str) -> (r: Option<usize>)
    ensures
        opt_usize(r) == column_of(texts(headers@), name@),
{
    let ghost hs = texts(headers@);
    let key = to_lower(name);
    let mut i: usize = headers.len();
    while i > 0
        invariant
            i <= headers@.len(),
            hs == texts(headers@),
            key@ == lower_of(name@),
            forall|j: int| i <= j < hs.len() ==> !header_matches(#[trigger] hs[j], name@),
        decreases i,
    {
        let h = to_lower(trim(headers[i - 1].as_str()).as_str());
        if h == key {
            assert(is_last_match(hs, name@, i - 1));
            assert forall|q: int| is_last_match(hs, name@, q) implies q == i - 1 by {
                if q < i - 1 {
                    assert(!is_last_match(hs, name@, q));
                }
            }
            return Some(i - 1);
        }
        assert(!header_matches(hs[i - 1], name@));
        i = i - 1;
    }
    assert forall|q: int| !is_last_match(hs, name@, q) by {}
    None
}

/// The column of each field the loader reads.
pub struct Columns {
    pub project_id: Option<usize>,
    pub contract_id: Option<usize>,
    pub funding_year: Option<usize>,
    pub region: Option<usize>,
    pub main_island: Option<usize>,
    pub province: Option<usize>,
    pub contractor: Option<usize>,
    pub type_of_work: Option<usize>,
    pub budget: Option<usize>,
    pub cost: Option<usize>,
    pub latitude: Option<usize>,
    pub longitude: Option<usize>,
    pub start_date: Option<usize>,
    pub completion_date: Option<usize>,
}

impl Columns {
    /// Each field's column is the one its header names.
    pub open spec fn of_headers(&self, hs: Seq<Seq<char>>) -> bool {
        &&& opt_usize(self.project_id) == column_of(hs, "ProjectId"@)
        &&& opt_usize(self.contract_id) == column_of(hs, "ContractId"@)
        &&& opt_usize(self.funding_year) == column_of(hs, "FundingYear"@)
        &&& opt_usize(self.region) == column_of(hs, "Region"@)
        &&& opt_usize(self.main_island) == column_of(hs, "MainIsland"@)
        &&& opt_usize(self.province) == column_of(hs, "Province"@)
        &&& opt_usize(self.contractor) == column_of(hs, "Contractor"@)
        &&& opt_usize(self.type_of_work) == column_of(hs, "TypeOfWork"@)
        &&& opt_usize(self.budget) == column_of(hs, "ApprovedBudgetForContract"@)
        &&& opt_usize(self.cost) == column_of(hs, "ContractCost"@)
        &&& opt_usize(self.latitude) == column_of(hs, "ProjectLatitude"@)
        &&& opt_usize(self.longitude) == column_of(hs, "ProjectLongitude"@)
        &&& opt_usize(self.start_date) == column_of(hs, "StartDate"@)
        &&& opt_usize(self.completion_date) == column_of(hs, "ActualCompletionDate"@)
    }

    /// Looks every field up in the header row.
    pub fn from_headers(headers: &Vec<String>) -> (r: Columns)
        ensures
            r.of_headers(texts(headers@)),
    {
        Columns {
            project_id: column_index(headers, "ProjectId"),
            contract_id: column_index(headers, "ContractId"),
            funding_year: column_index(headers, "FundingYear"),
            region: column_index(headers, "Region"),
            main_island: column_index(headers, "MainIsland"),
            province: column_index(headers, "Province"),
            contractor: column_index(headers, "Contractor"),
            type_of_work: column_index(headers, "TypeOfWork"),
            budget: column_index(headers, "ApprovedBudgetForContract"),
            cost: column_index(headers, "ContractCost"),
            latitude: column_index(headers, "ProjectLatitude"),
            longitude: column_index(headers, "ProjectLongitude"),
            start_date: column_index(headers, "StartDate"),
            completion_date: column_index(headers, "ActualCompletionDate"),
        }
    }
}

/// The trimmed text of a row's field; empty when the column is unknown or the row is short.
pub open spec fn field_spec(row: Seq<Seq<char>>, col: Option<usize>) -> Seq<char> {
    match col {
        Some(i) => if i < row.len() {
            trim_spec(row[i as int])
        } else {
            Seq::empty()
        },
        None => Seq::empty(),
    }
}

/// Reads a row's field.
pub fn field(row: &Vec<String>, col: Option<usize>) -> (r: String)
    ensures
        r@ == field_spec(texts(row@), col),
{
    match col {
        Some(i) => if i < row.len() {
            trim(row[i].as_str())
        } else {
            String::new()
        },
        None => String::new(),
    }
}

/// The value that the rows register under identifier `x`: the parsed `val_col` text of the
/// last row whose `id_col` is `x` (non-empty) and whose `val_col` text is a plain number.
pub open spec fn registered(
    rows: Seq<Seq<Seq<char>>>,
    id_col: Option<usize>,
    val_col: Option<usize>,
    x: Seq<char>,
) -> Option<int>
    decreases rows.len(),
{
    if rows.len() == 0 {
        None
    } else {
        let r = rows.last();
        let id = field_spec(r, id_col);
        let v = parse_decimal_spec(field_spec(r, val_col), MONEY_PLACES as nat);
        if id.len() > 0 && id == x && v is Some {
            v
        } else {
            registered(rows.drop_last(), id_col, val_col, x)
        }
    }
}

/// An identifier-to-amount table in which a later entry overrides an earlier one.
pub struct RefTable {
    pub keys: Vec<String>,
    pub values: Vec<i64>,
}

/// The value of the last entry under `x`.
pub open spec fn entry_lookup(keys: Seq<String>, values: Seq<i64>, x: Seq<char>) -> Option<int>
    decreases keys.len(),
{
    if keys.len() == 0 || values.len() != keys.len() {
        None
    } else if keys.last()@ == x {
        Some(values.last() as int)
    } else {
        entry_lookup(keys.drop_last(), values.drop_last(), x)
    }
}

proof fn lemma_lookup_prefix(keys: Seq<String>, values: Seq<i64>, x: Seq<char>, k: int)
    requires
        0 <= k <= keys.len(),
        keys.len() == values.len(),
        forall|j: int| k <= j < keys.len() ==> (#[trigger] keys[j])@ != x,
    ensures
        entry_lookup(keys, values, x) == entry_lookup(
            keys.subrange(0, k),
            values.subrange(0, k),
            x,
        ),
    decreases keys.len() - k,
{
    if k < keys.len() {
        lemma_lookup_prefix(keys.drop_last(), values.drop_last(), x, k);
        assert(keys.drop_last().subrange(0, k) =~= keys.subrange(0, k));
        assert(values.drop_last().subrange(0, k) =~= values.subrange(0, k));
    } else {
        assert(keys.subrange(0, k) =~= keys);
        assert(values.subrange(0, k) =~= values);
    }
}

impl RefTable {
    pub open spec fn wf(&self) -> bool {
        self.keys@.len() == self.values@.len()
    }

    pub open spec fn lookup_spec(&self, x: Seq<char>) -> Option<int> {
        entry_lookup(self.keys@, self.values@, x)
    }

    /// The value last stored under `x`.
    pub fn lookup(&self, x: &str) -> (r: Option<i64>)
        requires
            self.wf(),
        ensures
            opt_int(r) == self.lookup_spec(x@),
    {
        let mut k: usize = self.keys.len();
        while k > 0
            invariant
                self.wf(),
                k <= self.keys@.len(),
                forall|j: int| k <= j < self.keys@.len() ==> (#[trigger] self.keys@[j])@ != x@,
            decreases k,
        {
            if self.keys[k - 1].as_str().unicode_len() == x.unicode_len() && equal_text(
                self.keys[k - 1].as_str(),
                x,
            ) {
                proof {
                    lemma_lookup_prefix(self.keys@, self.values@, x@, k as int);
                    assert(self.keys@.subrange(0, k as int).drop_last() =~= self.keys@.subrange(
                        0,
                        k - 1,
                    ));
                }
                return Some(self.values[k - 1]);
            }
            k = k - 1;
        }
        proof {
            lemma_lookup_prefix(self.keys@, self.values@, x@, 0);
        }
        None
    }
}

/// Whether two texts hold the same characters.
fn equal_text(a: &str, b: &str) -> (r: bool)
    ensures
        r == (a@ == b@),
{
    let n = a.unicode_len();
    if n != b.unicode_len() {
        return false;
    }
    let mut i: usize = 0;
    while i < n
        invariant
            n == a@.len() == b@.len(),
            i <= n,
            forall|j: int| 0 <= j < i ==> a@[j] == b@[j],
        decreases n - i,
    {
        if a.get_char(i) != b.get_char(i) {
            return false;
        }
        i = i + 1;
    }
    assert(a@ =~= b@);
    true
}

/// Pass one: the table of plain amounts in column `val_col` under the identifiers of `id_col`.
pub fn build_table(rows: &Vec<Vec<String>>, id_col: Option<usize>, val_col: Option<usize>) -> (r:
    RefTable)
    ensures
        r.wf(),
        forall|x: Seq<char>|
            #[trigger] r.lookup_spec(x) == registered(table_texts(rows@), id_col, val_col, x),
        forall|i: int| 0 <= i < r.values@.len() ==> amount_ok(Some(#[trigger] r.values@[i])),
{
    let ghost all = table_texts(rows@);
    let mut t = RefTable { keys: Vec::new(), values: Vec::new() };
    let mut i: usize = 0;
    while i < rows.len()
        invariant
            i <= rows@.len(),
            all == table_texts(rows@),
            t.wf(),
            forall|x: Seq<char>|
                #[trigger] t.lookup_spec(x) == registered(all.subrange(0, i as int), id_col, val_col, x),
            forall|j: int| 0 <= j < t.values@.len() ==> amount_ok(Some(#[trigger] t.values@[j])),
        decreases rows@.len() - i,
    {
        let id = field(&rows[i], id_col);
        let v = parse_decimal(field(&rows[i], val_col).as_str(), MONEY_PLACES);
        let ghost before = t.keys@;
        let ghost before_v = t.values@;
        let ghost t0 = t;
        let ghost row = all[i as int];
        proof {
            assert(all[i as int] == texts(rows@[i as int]@));
            assert(id@ == field_spec(row, id_col));
        }
        if id.as_str().unicode_len() > 0 {
            if let Some(a) = v {
                t.keys.push(id);
                t.values.push(a);
            }
        }
        proof {
            assert(all.subrange(0, i + 1).drop_last() =~= all.subrange(0, i as int));
            assert(all.subrange(0, i + 1).last() == all[i as int]);
            assert(all[i as int] == texts(rows@[i as int]@));
            assert forall|x: Seq<char>| #[trigger] t.lookup_spec(x) == registered(
                all.subrange(0, i + 1),
                id_col,
                val_col,
                x,
            ) by {
                let pre = all.subrange(0, i + 1);
                assert(pre.last() == row);
                assert(t0.lookup_spec(x) == registered(all.subrange(0, i as int), id_col, val_col, x));
                if t.keys@.len() > before.len() {
                    assert(t.keys@.drop_last() =~= before);
                    assert(t.values@.drop_last() =~= before_v);
                    assert(t.keys@.last()@ == field_spec(row, id_col));
                } else {
                    assert(t.keys@ == before);
                    assert(t.values@ == before_v);
                }
            }
        }
        i = i + 1;
    }
    assert(all.subrange(0, rows@.len() as int) =~= all);
    t
}

/// What a budget or cost text resolves to: its plain amount, else the amount registered for
/// the identifier that a contract or project reference in it names; one hop only.
pub open spec fn resolve_spec(
    raw: Seq<char>,
    rows: Seq<Seq<Seq<char>>>,
    cols: Columns,
    val_col: Option<usize>,
) -> Option<int> {
    match parse_decimal_spec(raw, MONEY_PLACES as nat) {
        Some(v) => Some(v),
        None => match first_capture(cluster_pattern(), raw) {
            Some(id) => registered(rows, cols.contract_id, val_col, id),
            None => match first_capture(myca_pattern(), raw) {
                Some(id) => registered(rows, cols.project_id, val_col, id),
                None => None,
            },
        },
    }
}

/// Pass two for one amount: parses `raw`, or follows the reference it holds through the
/// contract and project tables.
pub fn resolve_amount(raw: &str, by_contract: &RefTable, by_project: &RefTable) -> (r: Option<
    i64,
>)
    requires
        by_contract.wf(),
        by_project.wf(),
        forall|i: int|
            0 <= i < by_contract.values@.len() ==> amount_ok(Some(#[trigger] by_contract.values@[i])),
        forall|i: int|
            0 <= i < by_project.values@.len() ==> amount_ok(Some(#[trigger] by_project.values@[i])),
    ensures
        amount_ok(r),
        opt_int(r) == match parse_decimal_spec(raw@, MONEY_PLACES as nat) {
            Some(v) => Some(v),
            None => match first_capture(cluster_pattern(), raw@) {
                Some(id) => by_contract.lookup_spec(id),
                None => match first_capture(myca_pattern(), raw@) {
                    Some(id) => by_project.lookup_spec(id),
                    None => None,
                },
            },
        },
{
    if let Some(v) = parse_decimal(raw, MONEY_PLACES) {
        return Some(v);
    }
    if let Some(id) = capture_group("Clustered with Contract ID\\s+([\\w\\-.]+)", raw) {
        return lookup_amount(by_contract, id.as_str());
    }
    if let Some(id) = capture_group("MYCA with Project ID\\s+([\\w\\-.]+)", raw) {
        return lookup_amount(by_project, id.as_str());
    }
    None
}

fn lookup_amount(t: &RefTable, x: &str) -> (r: Option<i64>)
    requires
        t.wf(),
        forall|i: int| 0 <= i < t.values@.len() ==> amount_ok(Some(#[trigger] t.values@[i])),
    ensures
        amount_ok(r),
        opt_int(r) == t.lookup_spec(x@),
{
    let r = t.lookup(x);
    proof {
        lemma_lookup_in_values(t.keys@, t.values@, x@);
    }
    r
}

proof fn lemma_lookup_in_values(keys: Seq<String>, values: Seq<i64>, x: Seq<char>)
    requires
        keys.len() == values.len(),
    ensures
        entry_lookup(keys, values, x) matches Some(v) ==> exists|i: int|
            0 <= i < values.len() && values[i] == v,
    decreases keys.len(),
{
    if keys.len() > 0 && keys.last()@ != x {
        lemma_lookup_in_values(keys.drop_last(), values.drop_last(), x);
        if let Some(v) = entry_lookup(keys, values, x) {
            let i = choose|i: int| 0 <= i < values.drop_last().len() && values.drop_last()[i] == v;
            assert(values[i] == v);
        }
    } else if keys.len() > 0 {
        assert(values[values.len() - 1] == values.last());
    }
}

pub open spec fn usize_opt(o: Option<int>) -> Option<usize> {
    match o {
        Some(i) => Some(i as usize),
        None => None,
    }
}

/// The columns that a header row gives to the fields.
pub open spec fn columns_spec(hs: Seq<Seq<char>>) -> Columns {
    Columns {
        project_id: usize_opt(column_of(hs, "ProjectId"@)),
        contract_id: usize_opt(column_of(hs, "ContractId"@)),
        funding_year: usize_opt(column_of(hs, "FundingYear"@)),
        region: usize_opt(column_of(hs, "Region"@)),
        main_island: usize_opt(column_of(hs, "MainIsland"@)),
        province: usize_opt(column_of(hs, "Province"@)),
        contractor: usize_opt(column_of(hs, "Contractor"@)),
        type_of_work: usize_opt(column_of(hs, "TypeOfWork"@)),
        budget: usize_opt(column_of(hs, "ApprovedBudgetForContract"@)),
        cost: usize_opt(column_of(hs, "ContractCost"@)),
        latitude: usize_opt(column_of(hs, "ProjectLatitude"@)),
        longitude: usize_opt(column_of(hs, "ProjectLongitude"@)),
        start_date: usize_opt(column_of(hs, "StartDate"@)),
        completion_date: usize_opt(column_of(hs, "ActualCompletionDate"@)),
    }
}

pub open spec fn opt32(o: Option<i32>) -> Option<int> {
    match o {
        Some(v) => Some(v as int),
        None => None,
    }
}

/// The field is present and holds exactly `t`.
pub open spec fn text_is(o: Option<String>, t: Seq<char>) -> bool {
    o matches Some(s) && s@ == t
}

/// `p` is the project that `row` of the table `all` describes: text fields as read, numbers
/// and dates parsed, budget and cost resolved, derived fields computed.
pub open spec fn loaded_from(
    p: Project,
    row: Seq<Seq<char>>,
    all: Seq<Seq<Seq<char>>>,
    cols: Columns,
) -> bool {
    &&& text_is(p.project_id, field_spec(row, cols.project_id))
    &&& text_is(p.contract_id, field_spec(row, cols.contract_id))
    &&& text_is(p.region, field_spec(row, cols.region))
    &&& text_is(p.main_island, field_spec(row, cols.main_island))
    &&& text_is(p.province, field_spec(row, cols.province))
    &&& text_is(p.contractor, field_spec(row, cols.contractor))
    &&& text_is(p.type_of_work, field_spec(row, cols.type_of_work))
    &&& opt32(p.funding_year) == parse_int_spec(field_spec(row, cols.funding_year))
    &&& opt_int(p.approved_budget_for_contract) == resolve_spec(
        field_spec(row, cols.budget),
        all,
        cols,
        cols.budget,
    )
    &&& opt_int(p.contract_cost) == resolve_spec(field_spec(row, cols.cost), all, cols, cols.cost)
    &&& opt_int(p.lat) == parse_decimal_spec(field_spec(row, cols.latitude), COORD_PLACES as nat)
    &&& opt_int(p.lon) == parse_decimal_spec(field_spec(row, cols.longitude), COORD_PLACES as nat)
    &&& opt32(p.start_date) == parse_date_spec(field_spec(row, cols.start_date))
    &&& opt32(p.actual_completion_date) == parse_date_spec(field_spec(row, cols.completion_date))
    &&& p.wf()
}

/// The four reference tables of pass one.
pub struct RefTables {
    pub contract_budget: RefTable,
    pub contract_cost: RefTable,
    pub project_budget: RefTable,
    pub project_cost: RefTable,
}

impl RefTables {
    /// Every table holds what the rows register under its identifier kind and amount column.
    pub open spec fn built_from(&self, all: Seq<Seq<Seq<char>>>, cols: Columns) -> bool {
        &&& self.contract_budget.wf()
        &&& self.contract_cost.wf()
        &&& self.project_budget.wf()
        &&& self.project_cost.wf()
        &&& forall|x: Seq<char>|
            #[trigger] self.contract_budget.lookup_spec(x) == registered(
                all,
                cols.contract_id,
                cols.budget,
                x,
            )
        &&& forall|x: Seq<char>|
            #[trigger] self.contract_cost.lookup_spec(x) == registered(
                all,
                cols.contract_id,
                cols.cost,
                x,
            )
        &&& forall|x: Seq<char>|
            #[trigger] self.project_budget.lookup_spec(x) == registered(
                all,
                cols.project_id,
                cols.budget,
                x,
            )
        &&& forall|x: Seq<char>|
            #[trigger] self.project_cost.lookup_spec(x) == registered(
                all,
                cols.project_id,
                cols.cost,
                x,
            )
        &&& forall|i: int|
            0 <= i < self.contract_budget.values@.len() ==> amount_ok(
                Some(#[trigger] self.contract_budget.values@[i]),
            )
        &&& forall|i: int|
            0 <= i < self.contract_cost.values@.len() ==> amount_ok(
                Some(#[trigger] self.contract_cost.values@[i]),
            )
        &&& forall|i: int|
            0 <= i < self.project_budget.values@.len() ==> amount_ok(
                Some(#[trigger] self.project_budget.values@[i]),
            )
        &&& forall|i: int|
            0 <= i < self.project_cost.values@.len() ==> amount_ok(
                Some(#[trigger] self.project_cost.values@[i]),
            )
    }

    /// Pass one over all rows.
    pub fn build(rows: &Vec<Vec<String>>, cols: &Columns) -> (r: RefTables)
        ensures
            r.built_from(table_texts(rows@), *cols),
    {
        RefTables {
            contract_budget: build_table(rows, cols.contract_id, cols.budget),
            contract_cost: build_table(rows, cols.contract_id, cols.cost),
            project_budget: build_table(rows, cols.project_id, cols.budget),
            project_cost: build_table(rows, cols.project_id, cols.cost),
        }
    }
}

/// Pass two for one row: builds its project, resolving references through the tables.
pub fn build_project(row: &Vec<String>, cols: &Columns, tables: &RefTables) -> (p: Project)
    requires
        exists|all: Seq<Seq<Seq<char>>>| tables.built_from(all, *cols),
    ensures
        forall|all: Seq<Seq<Seq<char>>>|
            tables.built_from(all, *cols) ==> loaded_from(p, texts(row@), all, *cols),
{
    let mut p = Project::new();
    p.project_id = Some(field(row, cols.project_id));
    p.funding_year = parse_int(field(row, cols.funding_year).as_str());
    p.region = Some(field(row, cols.region));
    p.main_island = Some(field(row, cols.main_island));
    p.province = Some(field(row, cols.province));
    p.contractor = Some(field(row, cols.contractor));
    p.type_of_work = Some(field(row, cols.type_of_work));
    p.contract_id = Some(field(row, cols.contract_id));
    p.approved_budget_for_contract = resolve_amount(
        field(row, cols.budget).as_str(),
        &tables.contract_budget,
        &tables.project_budget,
    );
    p.contract_cost = resolve_amount(
        field(row, cols.cost).as_str(),
        &tables.contract_cost,
        &tables.project_cost,
    );
    p.lat = parse_decimal(field(row, cols.latitude).as_str(), COORD_PLACES);
    p.lon = parse_decimal(field(row, cols.longitude).as_str(), COORD_PLACES);
    p.start_date = try_parse_date(field(row, cols.start_date).as_str());
    p.actual_completion_date = try_parse_date(field(row, cols.completion_date).as_str());
    p.derive_fields();
    p
}

/// Why a table cannot be loaded.
#[derive(Debug, PartialEq, Eq)]
pub enum LoadError {
    /// The header row names no column for this required field.
    MissingColumn(String),
}

/// The first required field, in a fixed order, that the header row gives no column.
pub open spec fn first_missing(c: Columns) -> Option<Seq<char>> {
    if c.funding_year is None {
        Some("FundingYear"@)
    } else if c.region is None {
        Some("Region"@)
    } else if c.main_island is None {
        Some("MainIsland"@)
    } else if c.province is None {
        Some("Province"@)
    } else if c.contractor is None {
        Some("Contractor"@)
    } else if c.type_of_work is None {
        Some("TypeOfWork"@)
    } else if c.budget is None {
        Some("ApprovedBudgetForContract"@)
    } else if c.cost is None {
        Some("ContractCost"@)
    } else if c.start_date is None {
        Some("StartDate"@)
    } else if c.completion_date is None {
        Some("ActualCompletionDate"@)
    } else {
        None
    }
}

fn missing_column(cols: &Columns) -> (r: Option<String>)
    ensures
        r matches Some(s) ==> first_missing(*cols) == Some(s@),
        r is None ==> first_missing(*cols) is None,
{
    let name = if cols.funding_year.is_none() {
        "FundingYear"
    } else if cols.region.is_none() {
        "Region"
    } else if cols.main_island.is_none() {
        "MainIsland"
    } else if cols.province.is_none() {
        "Province"
    } else if cols.contractor.is_none() {
        "Contractor"
    } else if cols.type_of_work.is_none() {
        "TypeOfWork"
    } else if cols.budget.is_none() {
        "ApprovedBudgetForContract"
    } else if cols.cost.is_none() {
        "ContractCost"
    } else if cols.start_date.is_none() {
        "StartDate"
    } else if cols.completion_date.is_none() {
        "ActualCompletionDate"
    } else {
        return None;
    };
    Some(name.to_string())
}

/// Loads every row into a project: pass one collects the amounts registered under contract
/// and project identifiers, pass two builds each project and resolves references to them.
/// Fails, loading nothing, when the header row lacks a required column.
pub fn load_projects(headers: &Vec<String>, rows: &Vec<Vec<String>>) -> (r: Result<
    Vec<Project>,
    LoadError,
>)
    ensures
        r is Err <==> first_missing(columns_spec(texts(headers@))) is Some,
        r matches Err(LoadError::MissingColumn(name)) ==> first_missing(
            columns_spec(texts(headers@)),
        ) == Some(name@),
        r matches Ok(ps) ==> ps@.len() == rows@.len() && forall|i: int|
            0 <= i < ps@.len() ==> loaded_from(
                #[trigger] ps@[i],
                texts(rows@[i]@),
                table_texts(rows@),
                columns_spec(texts(headers@)),
            ),
{
    let cols = Columns::from_headers(headers);
    let ghost all = table_texts(rows@);
    assert(cols == columns_spec(texts(headers@)));
    if let Some(name) = missing_column(&cols) {
        return Err(LoadError::MissingColumn(name));
    }
    let tables = RefTables::build(rows, &cols);
    let mut r: Vec<Project> = Vec::new();
    let mut i: usize = 0;
    while i < rows.len()
        invariant
            i <= rows@.len(),
            r@.len() == i,
            all == table_texts(rows@),
            tables.built_from(all, cols),
            cols == columns_spec(texts(headers@)),
            forall|j: int|
                0 <= j < i ==> loaded_from(#[trigger] r@[j], texts(rows@[j]@), all, cols),
        decreases rows@.len() - i,
    {
        let p = build_project(&rows[i], &cols, &tables);
        r.push(p);
        i = i + 1;
    }
    Ok(r)
}

/// First year of the reporting window.
pub const FIRST_YEAR: i32 = 2021;

/// Last year of the reporting window.
pub const LAST_YEAR: i32 = 2023;

/// A project's governing year is its funding year; it must lie in the reporting window.
/// A project without a funding year is dropped.
pub open spec fn in_window(p: Project) -> bool {
    p.funding_year matches Some(y) && FIRST_YEAR <= y <= LAST_YEAR
}

pub open spec fn in_window_pred() -> spec_fn(Project) -> bool {
    |p: Project| in_window(p)
}

/// Whether the project's funding year lies in the reporting window.
pub fn in_year_window(p: &Project) -> (r: bool)
    ensures
        r == in_window(*p),
{
    match p.funding_year {
        Some(y) => FIRST_YEAR <= y && y <= LAST_YEAR,
        None => false,
    }
}

fn reversed(v: Vec<Project>) -> (r: Vec<Project>)
    ensures
        r@ == v@.reverse(),
{
    let ghost orig = v@;
    let mut v = v;
    let mut r: Vec<Project> = Vec::new();
    while v.len() > 0
        invariant
            v@.len() <= orig.len(),
            v@ == orig.subrange(0, v@.len() as int),
            r@ == orig.subrange(v@.len() as int, orig.len() as int).reverse(),
        decreases v@.len(),
    {
        let ghost k = v@.len();
        let p = v.pop().unwrap();
        r.push(p);
        assert(v@ =~= orig.subrange(0, k - 1));
        assert(r@ =~= orig.subrange(k - 1, orig.len() as int).reverse());
    }
    assert(r@ =~= orig.reverse());
    r
}

/// Keeps the projects whose funding year lies in the reporting window, in their order.
pub fn filter_by_year(projects: Vec<Project>) -> (r: Vec<Project>)
    ensures
        r@ == projects@.filter(in_window_pred()),
        forall|i: int| 0 <= i < r@.len() ==> in_window(#[trigger] r@[i]),
{
    let ghost orig = projects@;
    let n = projects.len();
    let mut rest = reversed(projects);
    let mut out: Vec<Project> = Vec::new();
    let mut i: usize = 0;
    while i < n
        invariant
            n == orig.len(),
            i <= n,
            rest@ == orig.subrange(i as int, n as int).reverse(),
            out@ == orig.subrange(0, i as int).filter(in_window_pred()),
        decreases n - i,
    {
        assert(rest@.len() == n - i);
        let p = rest.pop().unwrap();
        assert(p == orig[i as int]);
        let keep = in_year_window(&p);
        if keep {
            out.push(p);
        }
        proof {
            reveal(Seq::filter);
            assert(orig.subrange(0, i + 1).drop_last() =~= orig.subrange(0, i as int));
            assert(rest@ =~= orig.subrange(i + 1, n as int).reverse());
        }
        i = i + 1;
    }
    assert(orig.subrange(0, n as int) =~= orig);
    proof {
        lemma_filter_all(orig);
    }
    out
}

proof fn lemma_filter_all(s: Seq<Project>)
    ensures
        forall|i: int|
            0 <= i < s.filter(in_window_pred()).len() ==> in_window(
                #[trigger] s.filter(in_window_pred())[i],
            ),
    decreases s.len(),
{
    reveal(Seq::filter);
    if s.len() > 0 {
        lemma_filter_all(s.drop_last());
    }
}

} // verus!
