use excel_extract::batch::{progress_message, Batch};
use excel_extract::config::{
    directive_from_raw, spec_from_raw, Lookup, RawDirective, SpecError,
};
use excel_extract::merge::{
    fresh_key, merge_labeled, merge_output, merge_sheet, merge_unlabeled, sheet_record,
    DirectiveOutput, Field,
};
use excel_extract::resolve::{extend_unique, plan_sheets, resolve_sheet_names, ExtractionKind};

fn s(x: &str) -> String {
    x.to_string()
}

fn leaves(out: Vec<(&str, i32)>) -> Vec<(String, Field<i32>)> {
    out.into_iter().map(|(k, v)| (s(k), Field::Leaf(v))).collect()
}

fn unlabeled(out: Vec<(&str, i32)>) -> DirectiveOutput<i32> {
    DirectiveOutput::Unlabeled(leaves(out))
}

fn labeled(label: &str, out: Vec<(&str, i32)>) -> DirectiveOutput<i32> {
    DirectiveOutput::Labeled(s(label), out.into_iter().map(|(k, v)| (s(k), v)).collect())
}

fn keys<V>(r: &[(String, V)]) -> Vec<String> {
    r.iter().map(|e| e.0.clone()).collect()
}

fn leaf(r: &[(String, Field<i32>)], k: &str) -> i32 {
    match &r.iter().find(|e| e.0 == k).unwrap().1 {
        Field::Leaf(v) => *v,
        Field::Group(_) => panic!("group under {}", k),
    }
}

fn group(r: &[(String, Field<i32>)], k: &str) -> Vec<(String, i32)> {
    match &r.iter().find(|e| e.0 == k).unwrap().1 {
        Field::Group(g) => g.clone(),
        Field::Leaf(_) => panic!("leaf under {}", k),
    }
}

#[test]
fn repeated_unlabeled_key_gets_suffix() {
    let mut acc = Vec::new();
    merge_unlabeled(&mut acc, leaves(vec![("total", 1)]));
    merge_unlabeled(&mut acc, leaves(vec![("total", 2)]));
    assert_eq!(keys(&acc), vec![s("total"), s("total_1")]);
    assert_eq!(leaf(&acc, "total"), 1);
    assert_eq!(leaf(&acc, "total_1"), 2);
    merge_unlabeled(&mut acc, leaves(vec![("total", 3), ("count", 4)]));
    assert_eq!(keys(&acc), vec![s("total"), s("total_1"), s("total_2"), s("count")]);
}

#[test]
fn fresh_key_skips_taken_suffixes() {
    let entries = vec![(s("a"), 0), (s("a_1"), 0), (s("a_2"), 0)];
    assert_eq!(fresh_key(&entries, &s("a")), s("a_3"));
    assert_eq!(fresh_key(&entries, &s("b")), s("b"));
    let entries = vec![(s("a"), 0), (s("a_2"), 0)];
    assert_eq!(fresh_key(&entries, &s("a")), s("a_1"));
}

#[test]
fn labeled_outputs_merge_into_one_group() {
    let mut acc = Vec::new();
    merge_labeled(&mut acc, s("totals"), vec![(s("x"), 1), (s("y"), 2)]);
    merge_labeled(&mut acc, s("totals"), vec![(s("y"), 20), (s("z"), 30)]);
    assert_eq!(keys(&acc), vec![s("totals")]);
    assert_eq!(group(&acc, "totals"), vec![(s("x"), 1), (s("y"), 20), (s("z"), 30)]);
}

#[test]
fn labeled_output_replaces_plain_value() {
    let mut acc = Vec::new();
    merge_output(&mut acc, unlabeled(vec![("meta", 7)]));
    merge_output(&mut acc, labeled("meta", vec![("a", 1)]));
    assert_eq!(group(&acc, "meta"), vec![(s("a"), 1)]);
    merge_output(&mut acc, unlabeled(vec![("meta", 8)]));
    assert_eq!(keys(&acc), vec![s("meta"), s("meta_1")]);
}

#[test]
fn labeled_output_merges_into_object_value() {
    let mut acc = Vec::new();
    merge_output(
        &mut acc,
        DirectiveOutput::Unlabeled(vec![(s("meta"), Field::Group(vec![(s("a"), 1), (s("b"), 2)]))]),
    );
    merge_output(&mut acc, labeled("meta", vec![("b", 20), ("c", 3)]));
    assert_eq!(keys(&acc), vec![s("meta")]);
    assert_eq!(group(&acc, "meta"), vec![(s("a"), 1), (s("b"), 20), (s("c"), 3)]);
}

#[test]
fn sheet_results_merge_not_replace() {
    let mut sheets = Vec::new();
    merge_sheet(&mut sheets, s("Data"), vec![(s("a"), Field::Leaf(1)), (s("b"), Field::Leaf(2))]);
    merge_sheet(&mut sheets, s("Other"), vec![(s("c"), Field::Leaf(3))]);
    merge_sheet(&mut sheets, s("Data"), vec![(s("b"), Field::Leaf(20)), (s("d"), Field::Leaf(4))]);
    assert_eq!(keys(&sheets), vec![s("Data"), s("Other")]);
    let data = &sheets[0].1;
    assert_eq!(keys(data), vec![s("a"), s("b"), s("d")]);
    assert_eq!(leaf(data, "b"), 20);
}

#[test]
fn sheet_record_skips_unsupported_directives() {
    let outputs = vec![Some(unlabeled(vec![("total", 1)])), None, Some(labeled("grp", vec![("total", 5)]))];
    let rec = sheet_record(outputs);
    assert_eq!(keys(&rec), vec![s("total"), s("grp")]);
    assert_eq!(group(&rec, "grp"), vec![(s("total"), 5)]);
}

#[test]
fn unlabeled_directives_keep_every_value() {
    let outputs = vec![
        Some(unlabeled(vec![("total", 1), ("n", 2)])),
        Some(unlabeled(vec![("total", 3)])),
        None,
        Some(unlabeled(vec![("n", 4), ("total", 5)])),
    ];
    let rec = sheet_record(outputs);
    assert_eq!(keys(&rec), vec![s("total"), s("n"), s("total_1"), s("n_1"), s("total_2")]);
    let values: Vec<i32> = rec.iter().map(|e| leaf(&rec, &e.0)).collect();
    assert_eq!(values, vec![1, 2, 3, 4, 5]);
}

#[test]
fn extend_unique_keeps_first() {
    let mut v = vec![s("a")];
    extend_unique(&mut v, s("b"));
    extend_unique(&mut v, s("a"));
    assert_eq!(v, vec![s("a"), s("b")]);
}

#[test]
fn sheet_names_resolve_in_order() {
    let patterns = vec![s("Summary"), s("Data*"), s("Data2"), s("Notes")];
    let matched = vec![vec![], vec![s("Data1"), s("Data2"), s("Data3")], vec![], vec![]];
    let skip = vec![s("Data3"), s("Notes")];
    let r = resolve_sheet_names(&patterns, &matched, &skip);
    assert_eq!(r, vec![s("Summary"), s("Data1"), s("Data2")]);
}

#[test]
fn empty_break_cell_stops_later_sheets() {
    let found = vec![true, true, true];
    let empty = vec![false, true, false];
    assert_eq!(plan_sheets(&found, &empty, true), (vec![0, 1], true));
    assert_eq!(plan_sheets(&found, &empty, false), (vec![0, 1, 2], false));
    let found = vec![true, false, true, true];
    let empty = vec![false, true, false, true];
    assert_eq!(plan_sheets(&found, &empty, true), (vec![0, 2, 3], true));
    let found = vec![true, false, true, true];
    let empty = vec![false, true, true, false];
    assert_eq!(plan_sheets(&found, &empty, true), (vec![0, 2], true));
}

#[test]
fn function_names_dispatch() {
    assert_eq!(ExtractionKind::from_name(&s("single_cells")), Some(ExtractionKind::SingleCells));
    assert_eq!(ExtractionKind::from_name(&s("multirow_patterns")), Some(ExtractionKind::MultirowPatterns));
    assert_eq!(ExtractionKind::from_name(&s("dataframe")), Some(ExtractionKind::Dataframe));
    assert_eq!(ExtractionKind::from_name(&s("pivot")), None);
}

fn raw(function: Option<&str>, label: Option<&str>, instructions: Option<i32>) -> Option<RawDirective<i32>> {
    Some(RawDirective { function: function.map(s), label: label.map(s), instructions })
}

#[test]
fn directive_validation() {
    let d = directive_from_raw(raw(Some("dataframe"), None, Some(3))).unwrap();
    assert_eq!((d.function, d.label, d.instructions), (s("dataframe"), s(""), 3));
    assert_eq!(directive_from_raw(raw(None, None, Some(3))).err(), Some(SpecError::MissingFunction));
    assert_eq!(directive_from_raw(raw(Some("x"), Some("l"), None)).err(), Some(SpecError::MissingInstructions));
    assert_eq!(directive_from_raw::<i32>(None).err(), Some(SpecError::ExtractionNotAnObject));
}

#[test]
fn spec_validation() {
    let ok = spec_from_raw(
        Lookup::Found(vec![Some(s("A")), Some(s("B*"))]),
        vec![s("B2")],
        Some(s("C3")),
        Lookup::Found(vec![raw(Some("single_cells"), Some("g"), Some(1))]),
    )
    .unwrap();
    assert_eq!(ok.sheets, vec![s("A"), s("B*")]);
    assert_eq!(ok.extractions.len(), 1);
    assert_eq!(ok.extractions[0].label, s("g"));
    let e = |sheets, ex| spec_from_raw::<i32>(sheets, vec![], None, ex).err();
    assert_eq!(e(Lookup::Missing, Lookup::Found(vec![])), Some(SpecError::MissingSheets));
    assert_eq!(e(Lookup::WrongType, Lookup::Found(vec![])), Some(SpecError::InvalidSheets));
    assert_eq!(e(Lookup::Found(vec![Some(s("A")), None]), Lookup::Found(vec![])), Some(SpecError::InvalidSheetName));
    assert_eq!(e(Lookup::Found(vec![]), Lookup::Missing), Some(SpecError::MissingExtractions));
    assert_eq!(
        e(Lookup::Found(vec![]), Lookup::Found(vec![raw(Some("a"), None, Some(1)), raw(None, None, None)])),
        Some(SpecError::MissingFunction)
    );
}

#[test]
fn batch_respects_worker_limit() {
    let mut b: Batch<i32> = Batch::new(5, 2);
    let mut most = 0;
    let mut order = Vec::new();
    let mut running = Vec::new();
    while !b.is_done() {
        while b.can_start() {
            let i = b.start();
            order.push(i);
            running.push(i);
            most = most.max(b.active_count());
        }
        // Finish the most recently started file first.
        let i = running.pop().unwrap();
        b.finish(i, Some(i as i32));
    }
    assert_eq!(most, 2);
    assert_eq!(order, vec![0, 1, 2, 3, 4]);
    assert_eq!(b.progress(), (5, 5));
    let mut finished: Vec<usize> = b.into_results().iter().map(|r| r.0).collect();
    assert_ne!(finished, vec![0, 1, 2, 3, 4]);
    finished.sort();
    assert_eq!(finished, vec![0, 1, 2, 3, 4]);
}

#[test]
fn unreadable_file_does_not_abort_batch() {
    let mut b: Batch<i32> = Batch::new(4, 3);
    let mut running = Vec::new();
    while !b.is_done() {
        while b.can_start() {
            running.push(b.start());
        }
        let i = running.remove(0);
        let r = if i == 1 { None } else { Some(i as i32) };
        b.finish(i, r);
    }
    assert_eq!(b.progress(), (4, 4));
    let results = b.into_results();
    assert_eq!(results.len(), 4);
    assert_eq!(results.iter().filter(|r| r.1.is_some()).count(), 3);
    assert_eq!(results.iter().filter(|r| r.1.is_none()).map(|r| r.0).collect::<Vec<_>>(), vec![1]);
}

#[test]
fn hard_failure_stops_admission() {
    let mut b: Batch<i32> = Batch::new(4, 1);
    b.start();
    b.fail();
    assert!(!b.can_start());
    assert!(b.is_done());
}

#[test]
fn progress_lines() {
    assert_eq!(progress_message(0, 4, 0), " Progress: 0/4 files. Avg: 0.00s. Time left: 0.00s.");
    assert_eq!(progress_message(2, 4, 3000), " Progress: 2/4 files. Avg: 1.50s. Time left: 3.00s.");
    assert_eq!(progress_message(3, 3, 1000), " Progress: 3/3 files. Avg: 0.33s. Time left: 0.00s.");
    assert_eq!(
        progress_message(3, 1000, 1000),
        " Progress: 3/1000 files. Avg: 0.33s. Time left: 332.33s."
    );
    assert_eq!(progress_message(1, 2, 125), " Progress: 1/2 files. Avg: 0.13s. Time left: 0.13s.");
}
