use chrono::Datelike;
use flood_projects::{filter_by_year, load_projects, LoadError, Project};

fn strings(cells: &[&str]) -> Vec<String> {
    cells.iter().map(|c| c.to_string()).collect()
}

fn headers() -> Vec<String> {
    strings(&[
        "ProjectId",
        "ContractId",
        "FundingYear",
        "Region",
        "MainIsland",
        "Province",
        "Contractor",
        "TypeOfWork",
        "ApprovedBudgetForContract",
        "ContractCost",
        "StartDate",
        "ActualCompletionDate",
        "ProjectLatitude",
        "ProjectLongitude",
    ])
}

fn day(y: i32, m: u32, d: u32) -> i32 {
    chrono::NaiveDate::from_ymd_opt(y, m, d).unwrap().num_days_from_ce()
}

#[test]
fn loads_fields_and_derives() {
    let rows = vec![strings(&[
        " P-1 ", "C-1", "2022", "Region VII", "Visayas", "Cebu", "Acme", "Dike",
        "1,000.50", "900.25", "2022-01-01", "2022-03-02", "10.3", "123.9",
    ])];
    let ps = load_projects(&headers(), &rows).unwrap();
    assert_eq!(ps.len(), 1);
    let p = &ps[0];
    assert_eq!(p.project_id.as_deref(), Some("P-1"));
    assert_eq!(p.contract_id.as_deref(), Some("C-1"));
    assert_eq!(p.funding_year, Some(2022));
    assert_eq!(p.region.as_deref(), Some("Region VII"));
    assert_eq!(p.approved_budget_for_contract, Some(100050));
    assert_eq!(p.contract_cost, Some(90025));
    assert_eq!(p.cost_savings, Some(10025));
    assert_eq!(p.start_date, Some(day(2022, 1, 1)));
    assert_eq!(p.completion_delay_days, Some(60));
    assert_eq!(p.lat, Some(10_300_000));
    assert_eq!(p.lon, Some(123_900_000));
}

#[test]
fn derived_fields_absent_without_operands() {
    let rows = vec![
        strings(&["P-1", "C-1", "2022", "R", "I", "P", "A", "W", "500", "", "2022-01-01", ""]),
        strings(&["P-2", "C-2", "2022", "R", "I", "P", "A", "W", "", "300", "", "2022-05-01"]),
        strings(&["P-3", "C-3", "2022", "R", "I", "P", "A", "W", "abc", "0", "bad", "2022-05-01"]),
    ];
    let ps = load_projects(&headers(), &rows).unwrap();
    for p in &ps {
        assert_eq!(p.cost_savings, None);
        assert_eq!(p.completion_delay_days, None);
    }
    assert_eq!(ps[2].contract_cost, Some(0));
}

#[test]
fn cluster_reference_resolves_to_same_dataset() {
    let rows = vec![
        strings(&["P-2", "C-2", "2022", "R", "I", "P", "A", "W",
            "Clustered with Contract ID C-1", "Clustered with Contract ID C-1", "", ""]),
        strings(&["P-1", "C-1", "2022", "R", "I", "P", "A", "W", "1,000.00", "750.00", "", ""]),
        strings(&["P-3", "C-3", "2022", "R", "I", "P", "A", "W",
            "Clustered with Contract ID ZZZ", "", "", ""]),
    ];
    let ps = load_projects(&headers(), &rows).unwrap();
    assert_eq!(ps[0].approved_budget_for_contract, Some(100000));
    assert_eq!(ps[0].contract_cost, Some(75000));
    assert_eq!(ps[0].cost_savings, Some(25000));
    assert_eq!(ps[2].approved_budget_for_contract, None);
    assert_eq!(ps[2].cost_savings, None);
}

#[test]
fn myca_reference_uses_project_ids() {
    let rows = vec![
        strings(&["P-10", "", "2021", "R", "I", "P", "A", "W", "2500", "2000", "", ""]),
        strings(&["P-11", "", "2021", "R", "I", "P", "A", "W",
            "MYCA with Project ID P-10", "MYCA with Project ID P-10", "", ""]),
        strings(&["P-12", "", "2021", "R", "I", "P", "A", "W",
            "MYCA with Project ID P-99", "Clustered with Contract ID P-10", "", ""]),
    ];
    let ps = load_projects(&headers(), &rows).unwrap();
    assert_eq!(ps[1].approved_budget_for_contract, Some(250000));
    assert_eq!(ps[1].contract_cost, Some(200000));
    assert_eq!(ps[2].approved_budget_for_contract, None);
    assert_eq!(ps[2].contract_cost, None);
}

#[test]
fn references_are_single_hop() {
    let rows = vec![
        strings(&["P-1", "A", "2022", "R", "I", "P", "X", "W", "Clustered with Contract ID B", "", "", ""]),
        strings(&["P-2", "B", "2022", "R", "I", "P", "X", "W", "Clustered with Contract ID A", "", "", ""]),
    ];
    let ps = load_projects(&headers(), &rows).unwrap();
    assert_eq!(ps[0].approved_budget_for_contract, None);
    assert_eq!(ps[1].approved_budget_for_contract, None);
}

#[test]
fn later_registration_wins() {
    let rows = vec![
        strings(&["P-1", "C-1", "2022", "R", "I", "P", "X", "W", "100", "", "", ""]),
        strings(&["P-2", "C-1", "2022", "R", "I", "P", "X", "W", "200", "", "", ""]),
        strings(&["P-3", "C-3", "2022", "R", "I", "P", "X", "W", "Clustered with Contract ID C-1", "", "", ""]),
    ];
    let ps = load_projects(&headers(), &rows).unwrap();
    assert_eq!(ps[2].approved_budget_for_contract, Some(20000));
}

#[test]
fn headers_match_case_insensitively_and_short_rows_read_empty() {
    let hs = strings(&[
        " fundingyear ", "REGION", "mainisland", "Province", "CONTRACTOR", "typeofwork",
        "approvedbudgetforcontract", "contractcost", "startdate", "actualcompletiondate",
    ]);
    let rows = vec![strings(&["2023", "NCR", "Luzon", "Manila", "Acme", "Dike", "5"]), strings(&["2021"])];
    let ps = load_projects(&hs, &rows).unwrap();
    assert_eq!(ps[0].funding_year, Some(2023));
    assert_eq!(ps[0].region.as_deref(), Some("NCR"));
    assert_eq!(ps[0].approved_budget_for_contract, Some(500));
    assert_eq!(ps[0].contract_cost, None);
    assert_eq!(ps[1].region.as_deref(), Some(""));
    assert_eq!(ps[1].approved_budget_for_contract, None);
    assert_eq!(ps[0].project_id.as_deref(), Some(""));
}

#[test]
fn missing_required_column_is_fatal() {
    let hs = strings(&[" fundingyear ", "REGION", "approvedbudgetforcontract"]);
    let rows = vec![strings(&["2023", "NCR", "5"])];
    assert_eq!(
        load_projects(&hs, &rows).err(),
        Some(LoadError::MissingColumn("MainIsland".to_string()))
    );
    let mut hs = headers();
    hs.retain(|h| h != "ActualCompletionDate");
    assert_eq!(
        load_projects(&hs, &Vec::new()).err(),
        Some(LoadError::MissingColumn("ActualCompletionDate".to_string()))
    );
}

fn with_year(y: Option<i32>) -> Project {
    let mut p = Project::new();
    p.funding_year = y;
    p
}

#[test]
fn year_filter_keeps_window() {
    let ps = vec![
        with_year(Some(2020)),
        with_year(Some(2022)),
        with_year(Some(2024)),
        with_year(None),
        with_year(Some(2021)),
        with_year(Some(2023)),
    ];
    let kept = filter_by_year(ps);
    let years: Vec<Option<i32>> = kept.iter().map(|p| p.funding_year).collect();
    assert_eq!(years, vec![Some(2022), Some(2021), Some(2023)]);
}
