use vstd::prelude::*;

verus! {

/// The views of a list of names.
pub open spec fn names_model(v: Seq<String>) -> Seq<Seq<char>> {
    v.map_values(|s: String| s@)
}

/// `acc` with `x` appended unless it already holds it.
pub open spec fn with_unique(acc: Seq<Seq<char>>, x: Seq<char>) -> Seq<Seq<char>> {
    if acc.contains(x) {
        acc
    } else {
        acc.push(x)
    }
}

/// Whether `names` holds a string whose view is `x`.
pub fn contains_name(names: &Vec<String>, x: &String) -> (r: bool)
    ensures
        r == names_model(names@).contains(x@),
{
    let mut i: usize = 0;
    while i < names.len()
        invariant
            0 <= i <= names@.len(),
            forall|j: int| 0 <= j < i ==> names@[j]@ != x@,
        decreases names.len() - i,
    {
        if names[i] == *x {
            assert(names_model(names@)[i as int] == x@);
            return true;
        }
        i = i + 1;
    }
    assert(!names_model(names@).contains(x@)) by {
        assert forall|j: int| 0 <= j < names@.len() implies names_model(names@)[j] != x@ by {
            assert(names_model(names@)[j] == names@[j]@);
        }
    }
    false
}

/// Appends `value` unless `vec` already holds it.
pub fn extend_unique(vec: &mut Vec<String>, value: String)
    ensures
        names_model(final(vec)@) == with_unique(names_model(old(vec)@), value@),
{
    if !contains_name(vec, &value) {
        vec.push(value);
        assert(names_model(vec@) =~= names_model(old(vec)@).push(value@));
    }
}

/// Whether a sheet pattern is a wildcard pattern.
pub open spec fn is_wildcard(pattern: Seq<char>) -> bool {
    pattern.contains('*')
}

/// The names that one pattern stands for: what the matcher found for a
/// wildcard pattern, the pattern itself otherwise.
pub open spec fn pattern_names(pattern: Seq<char>, matched: Seq<Seq<char>>) -> Seq<Seq<char>> {
    if is_wildcard(pattern) {
        matched
    } else {
        seq![pattern]
    }
}

/// Adds `names` in order to `acc`, leaving out skipped names and repeats.
pub open spec fn add_names(acc: Seq<Seq<char>>, skip: Seq<Seq<char>>, names: Seq<Seq<char>>) -> Seq<
    Seq<char>,
>
    decreases names.len(),
{
    if names.len() == 0 {
        acc
    } else {
        let a = add_names(acc, skip, names.drop_last());
        if skip.contains(names.last()) {
            a
        } else {
            with_unique(a, names.last())
        }
    }
}

/// The sheets that the first `n` patterns resolve to, in first-seen order.
pub open spec fn resolved_upto(
    patterns: Seq<Seq<char>>,
    matched: Seq<Seq<Seq<char>>>,
    skip: Seq<Seq<char>>,
    n: nat,
) -> Seq<Seq<char>>
    decreases n,
{
    if n == 0 {
        Seq::empty()
    } else {
        add_names(
            resolved_upto(patterns, matched, skip, (n - 1) as nat),
            skip,
            pattern_names(patterns[n - 1], matched[n - 1]),
        )
    }
}

/// The sheets that `patterns` resolve to.
pub open spec fn resolved_sheets(
    patterns: Seq<Seq<char>>,
    matched: Seq<Seq<Seq<char>>>,
    skip: Seq<Seq<char>>,
) -> Seq<Seq<char>> {
    resolved_upto(patterns, matched, skip, patterns.len())
}

fn is_wildcard_pattern(pattern: &String) -> (r: bool)
    ensures
        r == is_wildcard(pattern@),
{
    let s = pattern.as_str();
    let n = s.unicode_len();
    let mut i: usize = 0;
    while i < n
        invariant
            n == pattern@.len(),
            s@ == pattern@,
            0 <= i <= n,
            forall|j: int| 0 <= j < i ==> pattern@[j] != '*',
        decreases n - i,
    {
        if s.get_char(i) == '*' {
            return true;
        }
        i = i + 1;
    }
    false
}

/// Resolves sheet patterns into the list of sheets to visit.
///
/// A pattern holding `*` stands for the live sheet names that the matcher
/// found for it (`matched[i]` for `patterns[i]`); any other pattern stands
/// for itself. Names in `skip` are left out, even where a wildcard found
/// them. The result keeps first-seen order and holds no name twice.
pub fn resolve_sheet_names(
    patterns: &Vec<String>,
    matched: &Vec<Vec<String>>,
    skip: &Vec<String>,
) -> (r: Vec<String>)
    requires
        matched@.len() == patterns@.len(),
    ensures
        names_model(r@) == resolved_sheets(
            names_model(patterns@),
            matched@.map_values(|m: Vec<String>| names_model(m@)),
            names_model(skip@),
        ),
{
    let ghost pm = names_model(patterns@);
    let ghost mm = matched@.map_values(|m: Vec<String>| names_model(m@));
    let ghost sm = names_model(skip@);
    let mut out: Vec<String> = Vec::new();
    let mut i: usize = 0;
    while i < patterns.len()
        invariant
            0 <= i <= patterns@.len(),
            matched@.len() == patterns@.len(),
            pm == names_model(patterns@),
            mm == matched@.map_values(|m: Vec<String>| names_model(m@)),
            sm == names_model(skip@),
            names_model(out@) == resolved_upto(pm, mm, sm, i as nat),
        decreases patterns.len() - i,
    {
        let pattern = &patterns[i];
        assert(pm[i as int] == pattern@);
        let ghost before = names_model(out@);
        if is_wildcard_pattern(pattern) {
            let names = &matched[i];
            assert(mm[i as int] == names_model(names@));
            let mut j: usize = 0;
            while j < names.len()
                invariant
                    0 <= j <= names@.len(),
                    sm == names_model(skip@),
                    names_model(out@) == add_names(before, sm, names_model(names@).take(j as int)),
                decreases names.len() - j,
            {
                let name = &names[j];
                assert(names_model(names@).take(j as int + 1).drop_last() =~= names_model(names@).take(j as int));
                assert(names_model(names@).take(j as int + 1).last() == name@);
                if !contains_name(skip, name) {
                    extend_unique(&mut out, name.clone());
                }
                j = j + 1;
            }
            assert(names_model(names@).take(j as int) =~= names_model(names@));
            assert(pattern_names(pm[i as int], mm[i as int]) == names_model(names@));
        } else {
            assert(seq![pattern@].drop_last() =~= Seq::<Seq<char>>::empty());
            assert(add_names(before, sm, Seq::<Seq<char>>::empty()) == before);
            if !contains_name(skip, pattern) {
                extend_unique(&mut out, pattern.clone());
            }
            assert(pattern_names(pm[i as int], mm[i as int]) == seq![pattern@]);
        }
        assert(names_model(out@) == add_names(before, sm, pattern_names(pm[i as int], mm[i as int])));
        i = i + 1;
    }
    out
}

/// The sheets to extract from, as positions in the resolved list, given for
/// each sheet whether the workbook has it and whether its break cell is
/// empty; the flag tells whether the plan was cut short by an empty cell.
///
/// A missing sheet is passed over. Where `check_break` holds, the first
/// present sheet whose break cell is empty is the last one extracted from:
/// no sheet after it is visited.
pub open spec fn plan_upto(found: Seq<bool>, empty: Seq<bool>, check_break: bool, n: nat) -> (Seq<int>, bool)
    decreases n,
{
    if n == 0 {
        (Seq::empty(), false)
    } else {
        let (p, stopped) = plan_upto(found, empty, check_break, (n - 1) as nat);
        let i = n - 1;
        if stopped || !found[i] {
            (p, stopped)
        } else if check_break && empty[i] {
            (p.push(i), true)
        } else {
            (p.push(i), false)
        }
    }
}

/// Which of the resolved sheets to extract from, in order, and whether an
/// empty break cell ended the plan (see `plan_upto`). Once it has, no later
/// sheet changes the plan (`lemma_plan_settled`), so the sheets after it
/// need not be read.
pub fn plan_sheets(found: &Vec<bool>, break_cell_empty: &Vec<bool>, check_break: bool) -> (r: (Vec<usize>, bool))
    requires
        break_cell_empty@.len() == found@.len(),
    ensures
        r.0@.map_values(|i: usize| i as int) == plan_upto(found@, break_cell_empty@, check_break, found@.len()).0,
        r.1 == plan_upto(found@, break_cell_empty@, check_break, found@.len()).1,
{
    let mut plan: Vec<usize> = Vec::new();
    let mut stopped = false;
    let mut i: usize = 0;
    while i < found.len()
        invariant
            0 <= i <= found@.len(),
            break_cell_empty@.len() == found@.len(),
            (plan@.map_values(|i: usize| i as int), stopped) == plan_upto(found@, break_cell_empty@, check_break, i as nat),
        decreases found.len() - i,
    {
        if !stopped && found[i] {
            plan.push(i);
            if check_break && break_cell_empty[i] {
                stopped = true;
            }
        }
        assert(plan@.map_values(|i: usize| i as int) =~= plan_upto(found@, break_cell_empty@, check_break, i as nat + 1).0);
        i = i + 1;
    }
    (plan, stopped)
}

/// Once an empty break cell has ended the plan, later sheets change
/// nothing: the plan over any longer list is the same.
pub proof fn lemma_plan_settled(found: Seq<bool>, empty: Seq<bool>, check_break: bool, m: nat, n: nat)
    requires
        m <= n,
        plan_upto(found, empty, check_break, m).1,
    ensures
        plan_upto(found, empty, check_break, n) == plan_upto(found, empty, check_break, m),
    decreases n,
{
    if n > m {
        lemma_plan_settled(found, empty, check_break, m, (n - 1) as nat);
    }
}

/// The plan over the first `n` sheets reads the first `n` entries only.
pub proof fn lemma_plan_prefix(found: Seq<bool>, empty: Seq<bool>, check_break: bool, n: nat, len: nat)
    requires
        n <= len <= found.len(),
        len <= empty.len(),
    ensures
        plan_upto(found.take(len as int), empty.take(len as int), check_break, n) == plan_upto(found, empty, check_break, n),
    decreases n,
{
    if n > 0 {
        lemma_plan_prefix(found, empty, check_break, (n - 1) as nat, len);
    }
}

proof fn lemma_plan_below(found: Seq<bool>, empty: Seq<bool>, check_break: bool, n: nat)
    ensures
        forall|k: int| 0 <= k < plan_upto(found, empty, check_break, n).0.len() ==>
            #[trigger] plan_upto(found, empty, check_break, n).0[k] < n,
    decreases n,
{
    if n > 0 {
        lemma_plan_below(found, empty, check_break, (n - 1) as nat);
        let prev = plan_upto(found, empty, check_break, (n - 1) as nat);
        let cur = plan_upto(found, empty, check_break, n);
        assert forall|k: int| 0 <= k < cur.0.len() implies #[trigger] cur.0[k] < n by {
            if k < prev.0.len() {
                assert(cur.0[k] == prev.0[k]);
            }
        }
    }
}

/// An empty break cell ends the sheet loop: where sheet `i` is present and
/// its break cell is checked and empty, no sheet after `i` is extracted
/// from, and the plan is marked as cut short. The sheets before it keep
/// their place in the plan (`lemma_plan_keeps_earlier`).
pub proof fn lemma_break_stops(found: Seq<bool>, empty: Seq<bool>, n: nat, i: int)
    requires
        0 <= i < n <= found.len(),
        found[i],
        empty[i],
    ensures
        plan_upto(found, empty, true, n).1,
        forall|k: int| 0 <= k < plan_upto(found, empty, true, n).0.len() ==>
            #[trigger] plan_upto(found, empty, true, n).0[k] <= i,
    decreases n,
{
    let prev = plan_upto(found, empty, true, (n - 1) as nat);
    if n > i + 1 {
        lemma_break_stops(found, empty, (n - 1) as nat, i);
        assert(plan_upto(found, empty, true, n) == prev);
    } else {
        lemma_plan_below(found, empty, true, i as nat);
        let cur = plan_upto(found, empty, true, n);
        assert forall|k: int| 0 <= k < cur.0.len() implies #[trigger] cur.0[k] <= i by {
            if k < prev.0.len() {
                assert(cur.0[k] == prev.0[k]);
            }
        }
    }
}

/// A present sheet before which no empty break cell has ended the plan is
/// extracted from, empty break cell or not.
pub proof fn lemma_plan_keeps_earlier(found: Seq<bool>, empty: Seq<bool>, check_break: bool, n: nat, i: int)
    requires
        0 <= i < n <= found.len(),
        found[i],
        !plan_upto(found, empty, check_break, i as nat).1,
    ensures
        plan_upto(found, empty, check_break, n).0.contains(i),
    decreases n,
{
    let prev = plan_upto(found, empty, check_break, (n - 1) as nat);
    if n > i + 1 {
        lemma_plan_keeps_earlier(found, empty, check_break, (n - 1) as nat, i);
        let cur = plan_upto(found, empty, check_break, n);
        let k = choose|k: int| 0 <= k < prev.0.len() && prev.0[k] == i;
        assert(cur.0[k] == i);
    } else {
        let cur = plan_upto(found, empty, check_break, n);
        assert(cur.0[cur.0.len() - 1] == i);
    }
}

/// The extraction functions that a directive can name.
#[derive(Debug, Clone, Copy, PartialEq, Eq, Structural)]
pub enum ExtractionKind {
    SingleCells,
    MultirowPatterns,
    Dataframe,
}

impl ExtractionKind {
    /// The function that `name` names, if it is a supported one.
    pub fn from_name(name: &String) -> (r: Option<ExtractionKind>)
        ensures
            r == Some(ExtractionKind::SingleCells) <==> name@ == "single_cells"@,
            r == Some(ExtractionKind::MultirowPatterns) <==> name@ == "multirow_patterns"@,
            r == Some(ExtractionKind::Dataframe) <==> name@ == "dataframe"@,
    {
        let single = String::from_str("single_cells");
        let multirow = String::from_str("multirow_patterns");
        let frame = String::from_str("dataframe");
        proof {
            reveal_strlit("single_cells");
            reveal_strlit("multirow_patterns");
            reveal_strlit("dataframe");
            assert("single_cells"@.len() == 12);
            assert("multirow_patterns"@.len() == 17);
            assert("dataframe"@.len() == 9);
        }
        if *name == single {
            Some(ExtractionKind::SingleCells)
        } else if *name == multirow {
            Some(ExtractionKind::MultirowPatterns)
        } else if *name == frame {
            Some(ExtractionKind::Dataframe)
        } else {
            None
        }
    }
}

} // verus!
