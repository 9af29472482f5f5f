//! The project record and its derived fields.
use vstd::prelude::*;
use crate::parse::MAX_SCALED;

verus! {

/// One row of the dataset after parsing.
///
/// Money is in centavos, coordinates in millionths of a degree, and dates are day numbers
/// counted from the common era (0001-01-01 is day 1).
#[derive(Debug, Clone)]
pub struct Project {
    pub project_id: Option<String>,
    pub funding_year: Option<i32>,
    pub region: Option<String>,
    pub main_island: Option<String>,
    pub province: Option<String>,
    pub contractor: Option<String>,
    pub type_of_work: Option<String>,
    pub approved_budget_for_contract: Option<i64>,
    pub contract_cost: Option<i64>,
    pub start_date: Option<i32>,
    pub actual_completion_date: Option<i32>,
    pub lat: Option<i64>,
    pub lon: Option<i64>,
    pub cost_savings: Option<i64>,
    pub completion_delay_days: Option<i64>,
    pub contract_id: Option<String>,
}

/// An amount within the range that the decimal parser accepts.
pub open spec fn amount_ok(a: Option<i64>) -> bool {
    a matches Some(v) ==> -MAX_SCALED <= v <= MAX_SCALED
}

/// Budget minus cost, present only when both are.
pub open spec fn savings_of(budget: Option<i64>, cost: Option<i64>) -> Option<int> {
    match (budget, cost) {
        (Some(b), Some(c)) => Some(b - c),
        _ => None,
    }
}

/// Completion day minus start day, present only when both dates are.
pub open spec fn delay_of(start: Option<i32>, end: Option<i32>) -> Option<int> {
    match (start, end) {
        (Some(s), Some(e)) => Some(e - s),
        _ => None,
    }
}

pub open spec fn opt_int(o: Option<i64>) -> Option<int> {
    match o {
        Some(v) => Some(v as int),
        None => None,
    }
}

impl Project {
    /// Amounts are in range and each derived field is exactly what its operands give:
    /// absent whenever an operand is absent, never computed from a default.
    pub open spec fn wf(&self) -> bool {
        &&& amount_ok(self.approved_budget_for_contract)
        &&& amount_ok(self.contract_cost)
        &&& opt_int(self.cost_savings) == savings_of(
            self.approved_budget_for_contract,
            self.contract_cost,
        )
        &&& opt_int(self.completion_delay_days) == delay_of(
            self.start_date,
            self.actual_completion_date,
        )
    }

    /// A project with every field absent.
    pub fn new() -> (r: Project)
        ensures
            r.wf(),
            r.project_id is None,
            r.funding_year is None,
            r.region is None,
            r.main_island is None,
            r.province is None,
            r.contractor is None,
            r.type_of_work is None,
            r.approved_budget_for_contract is None,
            r.contract_cost is None,
            r.start_date is None,
            r.actual_completion_date is None,
            r.lat is None,
            r.lon is None,
            r.cost_savings is None,
            r.completion_delay_days is None,
            r.contract_id is None,
    {
        Project {
            project_id: None,
            funding_year: None,
            region: None,
            main_island: None,
            province: None,
            contractor: None,
            type_of_work: None,
            approved_budget_for_contract: None,
            contract_cost: None,
            start_date: None,
            actual_completion_date: None,
            lat: None,
            lon: None,
            cost_savings: None,
            completion_delay_days: None,
            contract_id: None,
        }
    }

    /// Computes cost savings and completion delay from the resolved fields.
    pub fn derive_fields(&mut self)
        requires
            amount_ok(old(self).approved_budget_for_contract),
            amount_ok(old(self).contract_cost),
        ensures
            final(self).wf(),
            final(self).approved_budget_for_contract == old(self).approved_budget_for_contract,
            final(self).contract_cost == old(self).contract_cost,
            final(self).start_date == old(self).start_date,
            final(self).actual_completion_date == old(self).actual_completion_date,
            final(self).project_id == old(self).project_id,
            final(self).funding_year == old(self).funding_year,
            final(self).region == old(self).region,
            final(self).main_island == old(self).main_island,
            final(self).province == old(self).province,
            final(self).contractor == old(self).contractor,
            final(self).type_of_work == old(self).type_of_work,
            final(self).lat == old(self).lat,
            final(self).lon == old(self).lon,
            final(self).contract_id == old(self).contract_id,
    {
        self.cost_savings = match (self.approved_budget_for_contract, self.contract_cost) {
            (Some(b), Some(c)) => Some(b - c),
            _ => None,
        };
        self.completion_delay_days = match (self.start_date, self.actual_completion_date) {
            (Some(s), Some(e)) => Some(e as i64 - s as i64),
            _ => None,
        };
    }
}

} // verus!
