use flood_projects::{
    filter_by_year, load_projects, report_annual_trends, report_regional_efficiency,
    report_top_contractors, summarize, Project,
};

struct Spec<'a> {
    region: &'a str,
    island: &'a str,
    contractor: &'a str,
    year: Option<i32>,
    work: Option<&'a str>,
    budget: Option<i64>,
    cost: Option<i64>,
    delay: Option<i32>,
}

fn project(s: Spec) -> Project {
    let mut p = Project::new();
    p.region = Some(s.region.to_string());
    p.main_island = Some(s.island.to_string());
    p.contractor = Some(s.contractor.to_string());
    p.province = Some("Cebu".to_string());
    p.funding_year = s.year;
    p.type_of_work = s.work.map(|w| w.to_string());
    p.approved_budget_for_contract = s.budget;
    p.contract_cost = s.cost;
    if let Some(d) = s.delay {
        p.start_date = Some(738000);
        p.actual_completion_date = Some(738000 + d);
    }
    p.derive_fields();
    p
}

fn simple(region: &str, island: &str, budget: i64, cost: i64, delay: Option<i32>) -> Project {
    project(Spec {
        region,
        island,
        contractor: "X",
        year: Some(2022),
        work: Some("Dike"),
        budget: Some(budget),
        cost: Some(cost),
        delay,
    })
}

#[test]
fn regional_efficiency_figures_and_order() {
    let ps = vec![
        simple("R1", "Luzon", 100000, 80000, Some(40)),
        simple("R2", "Mindanao", 200000, 100000, Some(10)),
        simple("R1", "Luzon", 50000, 45000, Some(20)),
        simple("R3", "Visayas", 10000, 5000, None),
    ];
    let rows = report_regional_efficiency(&ps);
    assert_eq!(rows.len(), 3);
    assert_eq!(rows[0].region, "R2");
    assert_eq!(rows[0].efficiency_score, 10000);
    let r1 = rows.iter().find(|r| r.region == "R1").unwrap();
    assert_eq!(r1.main_island, "Luzon");
    assert_eq!(r1.total_budget, 150000);
    assert_eq!(r1.median_savings, 12500);
    assert_eq!(r1.avg_delay, 3000);
    assert_eq!(r1.high_delay_pct, 5000);
    assert_eq!(r1.efficiency_score, 0);
    let r3 = rows.iter().find(|r| r.region == "R3").unwrap();
    assert_eq!(r3.avg_delay, 0);
    assert_eq!(r3.efficiency_score, 0);
    assert_eq!(r3.median_savings, 5000);
}

#[test]
fn regional_efficiency_normalizes_ten_twenty_thirty() {
    // One project per region, 10 days late; savings of 1, 2 and 3 pesos give raw
    // efficiencies 10, 20 and 30.
    let ps = vec![
        simple("A", "Luzon", 10100, 10000, Some(10)),
        simple("B", "Luzon", 10200, 10000, Some(10)),
        simple("C", "Luzon", 10300, 10000, Some(10)),
    ];
    let rows = report_regional_efficiency(&ps);
    let order: Vec<(&str, i128)> = rows.iter().map(|r| (r.region.as_str(), r.efficiency_score)).collect();
    assert_eq!(order, vec![("C", 10000), ("B", 5000), ("A", 0)]);
}

#[test]
fn regional_efficiency_keeps_tiny_positive_scores() {
    // A: 0.01 pesos over 300 days (raw 0.0033), B: 1000 pesos over 100 days (raw 1000),
    // C: 2000 pesos over 100 days (raw 2000). The minimum is A's tiny positive score.
    let ps = vec![
        simple("A", "Luzon", 10001, 10000, Some(300)),
        simple("B", "Luzon", 110000, 10000, Some(100)),
        simple("C", "Luzon", 210000, 10000, Some(100)),
    ];
    let rows = report_regional_efficiency(&ps);
    let order: Vec<(&str, i128)> = rows.iter().map(|r| (r.region.as_str(), r.efficiency_score)).collect();
    assert_eq!(order, vec![("C", 10000), ("B", 5000), ("A", 0)]);
}

#[test]
fn regional_efficiency_groups_missing_names_as_unknown() {
    let mut p = simple("R1", "Luzon", 100, 50, Some(5));
    p.region = None;
    p.main_island = None;
    let rows = report_regional_efficiency(&vec![p]);
    assert_eq!(rows.len(), 1);
    assert_eq!(rows[0].region, "Unknown");
    assert_eq!(rows[0].main_island, "Unknown");
}

#[test]
fn regional_efficiency_with_negative_average_delay() {
    let ps = vec![
        simple("R1", "Luzon", 1000, 500, Some(-10)),
        simple("R2", "Luzon", 1000, 500, Some(10)),
        simple("R3", "Luzon", 1000, 500, Some(20)),
    ];
    let rows = report_regional_efficiency(&ps);
    let score = |name: &str| rows.iter().find(|r| r.region == name).unwrap().efficiency_score;
    assert_eq!(score("R1"), 0);
    assert_eq!(score("R2"), 10000);
    assert_eq!(score("R3"), 0);
    assert_eq!(rows[0].region, "R2");
}

#[test]
fn regional_efficiency_of_nothing_is_empty() {
    assert!(report_regional_efficiency(&Vec::new()).is_empty());
}

fn by(contractor: &str, budget: i64, cost: i64, delay: i32) -> Project {
    project(Spec {
        region: "R",
        island: "I",
        contractor,
        year: Some(2022),
        work: Some("Dike"),
        budget: Some(budget),
        cost: Some(cost),
        delay: Some(delay),
    })
}

#[test]
fn contractor_report_threshold_and_reliability() {
    let mut ps = Vec::new();
    for _ in 0..6 {
        ps.push(by("Big", 10000, 9000, 9));
    }
    for _ in 0..4 {
        ps.push(by("Small", 10000, 1000, 0));
    }
    let rows = report_top_contractors(&ps);
    assert_eq!(rows.len(), 1);
    let r = &rows[0];
    assert_eq!(r.contractor, "Big");
    assert_eq!(r.num_projects, 6);
    assert_eq!(r.total_cost, 54000);
    assert_eq!(r.total_savings, 6000);
    assert_eq!(r.avg_delay, 900);
    assert_eq!(r.reliability_index, 1000);
    assert_eq!(r.risk_flag, "High Risk");
}

#[test]
fn reliability_uses_exact_mean_delay() {
    // Seven delays 0,0,0,0,0,0,1: the mean is 1/7 day, not 0.14.
    let mut ps = Vec::new();
    for d in [0, 0, 0, 0, 0, 0, 1] {
        ps.push(by("Exact", 200003, 100000, d));
    }
    let rows = report_top_contractors(&ps);
    assert_eq!(rows.len(), 1);
    // (1 - (1/7)/90) * 1.00003 * 100 = 99.8443; with the mean rounded to 0.14 it would be 99.8474.
    assert_eq!(rows[0].reliability_index, 9984);
    assert_eq!(rows[0].avg_delay, 14);
}

#[test]
fn risk_flag_uses_unrounded_reliability() {
    // savings / cost = 0.49996, no delay: reliability 49.996 rounds to 50.00 but is below 50.
    let mut ps = Vec::new();
    for _ in 0..5 {
        ps.push(by("Edge", 149996, 100000, 0));
    }
    let rows = report_top_contractors(&ps);
    assert_eq!(rows[0].reliability_index, 5000);
    assert_eq!(rows[0].risk_flag, "High Risk");
    let mut ps = Vec::new();
    for _ in 0..5 {
        ps.push(by("Fine", 150000, 100000, 0));
    }
    let rows = report_top_contractors(&ps);
    assert_eq!(rows[0].reliability_index, 5000);
    assert_eq!(rows[0].risk_flag, "OK");
}

#[test]
fn contractor_report_caps_and_guards() {
    let mut ps = Vec::new();
    for _ in 0..5 {
        ps.push(by("Free", 1000, 0, 0));
        ps.push(by("Great", 100000, 1000, 0));
    }
    let rows = report_top_contractors(&ps);
    assert_eq!(rows.len(), 2);
    assert_eq!(rows[0].contractor, "Great");
    assert_eq!(rows[0].reliability_index, 10000);
    assert_eq!(rows[0].risk_flag, "OK");
    assert_eq!(rows[1].contractor, "Free");
    assert_eq!(rows[1].total_cost, 0);
    assert_eq!(rows[1].reliability_index, 0);
    assert_eq!(rows[1].risk_flag, "High Risk");
}

#[test]
fn contractor_report_keeps_top_fifteen_by_cost() {
    let mut ps = Vec::new();
    for c in 0..17i64 {
        let name = format!("C{:02}", c);
        for _ in 0..5 {
            ps.push(by(&name, 100000, 1000 * (c + 1), 3));
        }
    }
    let rows = report_top_contractors(&ps);
    assert_eq!(rows.len(), 15);
    assert_eq!(rows[0].contractor, "C16");
    assert_eq!(rows[0].total_cost, 85000);
    assert_eq!(rows[14].contractor, "C02");
    for w in rows.windows(2) {
        assert!(w[0].total_cost >= w[1].total_cost);
    }
    assert!(rows.iter().all(|r| r.contractor != "C00" && r.contractor != "C01"));
}

fn trend(year: Option<i32>, work: Option<&str>, savings: i64) -> Project {
    project(Spec {
        region: "R",
        island: "I",
        contractor: "X",
        year,
        work,
        budget: Some(10000 + savings),
        cost: Some(10000),
        delay: None,
    })
}

#[test]
fn annual_trends_with_year_over_year_change() {
    let ps = vec![
        trend(Some(2022), Some("Dike"), 3000),
        trend(Some(2021), Some("Dike"), 1000),
        trend(Some(2022), Some("Bridge"), 500),
        trend(Some(2021), Some("Dike"), 3000),
        trend(Some(2022), None, 7000),
        trend(None, Some("Dike"), 7000),
    ];
    let rows = report_annual_trends(&ps);
    assert_eq!(rows.len(), 4);
    assert_eq!((rows[0].year, rows[0].type_of_work.as_str()), (2021, "Dike"));
    assert_eq!((rows[1].year, rows[1].type_of_work.as_str()), (2022, "Bridge"));
    assert_eq!((rows[2].year, rows[2].type_of_work.as_str()), (2022, "Dike"));
    assert_eq!((rows[3].year, rows[3].type_of_work.as_str()), (2022, "Unknown"));
    assert_eq!(rows[3].total_projects, 1);
    assert_eq!(rows[3].avg_savings, 7000);
    assert_eq!(rows[0].total_projects, 2);
    assert_eq!(rows[0].avg_savings, 2000);
    assert_eq!(rows[0].overrun_rate, 20);
    assert_eq!(rows[0].yoy_change, 0);
    assert_eq!(rows[1].yoy_change, 0);
    assert_eq!(rows[2].avg_savings, 3000);
    assert_eq!(rows[2].yoy_change, 5000);
}

fn strings(cells: &[&str]) -> Vec<String> {
    cells.iter().map(|c| c.to_string()).collect()
}

#[test]
fn summary_end_to_end_over_twenty_rows() {
    let headers = strings(&[
        "ProjectId",
        "FundingYear",
        "Contractor",
        "Province",
        "ApprovedBudgetForContract",
        "ContractCost",
        "StartDate",
        "ActualCompletionDate",
        "Region",
        "MainIsland",
        "TypeOfWork",
    ]);
    let mut rows = Vec::new();
    let mut expected_count = 0u64;
    let mut expected_savings: i128 = 0;
    let mut expected_delay_total: i128 = 0;
    let mut expected_delay_count: i128 = 0;
    for i in 0..20i64 {
        let year = 2019 + (i % 6);
        let budget = format!("{}.00", (i + 1) * 1000);
        let cost = if i % 4 == 3 { String::new() } else { format!("{}.50", (i + 1) * 900) };
        let end_day = 1 + (i % 9);
        rows.push(strings(&[
            &format!("P-{}", i),
            &year.to_string(),
            &format!("contractor {}", i % 3),
            &format!("province {}", i % 5),
            &budget,
            &cost,
            "2022-01-01",
            &format!("2022-02-{:02}", end_day),
        ]));
        if (2021..=2023).contains(&year) {
            expected_count += 1;
            if i % 4 != 3 {
                expected_savings += ((i + 1) * 100000 - ((i + 1) * 90000 + 50)) as i128;
            }
            expected_delay_total += (31 + end_day - 1) as i128;
            expected_delay_count += 1;
        }
    }
    let all = load_projects(&headers, &rows).unwrap();
    assert_eq!(all.len(), 20);
    let kept = filter_by_year(all);
    let s = summarize(&kept);
    assert_eq!(s.total_projects, expected_count);
    assert_eq!(s.global_total_savings, expected_savings);
    let mean = (expected_delay_total * 200 + expected_delay_count) / (2 * expected_delay_count);
    assert_eq!(s.global_avg_delay_days, mean);
    assert_eq!(s.total_contractors, 3);
    assert_eq!(s.total_provinces, 5);
}

#[test]
fn summary_of_nothing_is_zero() {
    let s = summarize(&Vec::new());
    assert_eq!(s.total_projects, 0);
    assert_eq!(s.total_contractors, 0);
    assert_eq!(s.total_provinces, 0);
    assert_eq!(s.global_avg_delay_days, 0);
    assert_eq!(s.global_total_savings, 0);
}
