use vstd::prelude::*;

verus! {

/// One extraction directive: which function to run, the label that groups
/// its output (empty for none), and the instructions handed to the function.
pub struct ExtractionDirective<I> {
    pub function: String,
    pub label: String,
    pub instructions: I,
}

/// One entry of a job's configuration.
pub struct ExtractionSpec<I> {
    pub sheets: Vec<String>,
    pub skip_sheets: Vec<String>,
    pub break_if_null: Option<String>,
    pub extractions: Vec<ExtractionDirective<I>>,
}

/// What looking up a key of a configuration object gave.
pub enum Lookup<T> {
    Missing,
    WrongType,
    Found(T),
}

/// A directive as read from the configuration: each field if it was there
/// with the right type.
pub struct RawDirective<I> {
    pub function: Option<String>,
    pub label: Option<String>,
    pub instructions: Option<I>,
}

/// Why a configuration entry is malformed.
#[derive(Debug, Clone, Copy, PartialEq, Eq, Structural)]
pub enum SpecError {
    NotAnObject,
    MissingSheets,
    InvalidSheets,
    InvalidSheetName,
    MissingExtractions,
    ExtractionNotAnObject,
    MissingFunction,
    MissingInstructions,
}

/// Why a raw directive (`None` where it was no object) is rejected, if it is.
pub open spec fn directive_error<I>(raw: Option<RawDirective<I>>) -> Option<SpecError> {
    match raw {
        None => Some(SpecError::ExtractionNotAnObject),
        Some(d) => if d.function is None {
            Some(SpecError::MissingFunction)
        } else if d.instructions is None {
            Some(SpecError::MissingInstructions)
        } else {
            None
        },
    }
}

/// `d` is what the raw directive validates into; a missing label is empty.
pub open spec fn directive_matches<I>(d: ExtractionDirective<I>, raw: Option<RawDirective<I>>) -> bool {
    &&& raw is Some
    &&& raw->0.function == Some(d.function)
    &&& raw->0.instructions == Some(d.instructions)
    &&& d.label@ == match raw->0.label {
        Some(l) => l@,
        None => Seq::<char>::empty(),
    }
}

/// The first error among raw directives, in order.
pub open spec fn first_directive_error<I>(ds: Seq<Option<RawDirective<I>>>) -> Option<SpecError>
    decreases ds.len(),
{
    if ds.len() == 0 {
        None
    } else {
        match first_directive_error(ds.drop_last()) {
            Some(e) => Some(e),
            None => directive_error(ds.last()),
        }
    }
}

/// Why the sheet list is rejected, if it is.
pub open spec fn sheets_error(sheets: Lookup<Vec<Option<String>>>) -> Option<SpecError> {
    match sheets {
        Lookup::Missing => Some(SpecError::MissingSheets),
        Lookup::WrongType => Some(SpecError::InvalidSheets),
        Lookup::Found(v) => if exists|i: int| 0 <= i < v@.len() && #[trigger] v@[i] is None {
            Some(SpecError::InvalidSheetName)
        } else {
            None
        },
    }
}

/// Why a configuration entry is rejected, if it is: the sheets first, then
/// the extraction list, then each directive in order.
pub open spec fn spec_error<I>(
    sheets: Lookup<Vec<Option<String>>>,
    extractions: Lookup<Vec<Option<RawDirective<I>>>>,
) -> Option<SpecError> {
    match sheets_error(sheets) {
        Some(e) => Some(e),
        None => match extractions {
            Lookup::Found(ds) => first_directive_error(ds@),
            _ => Some(SpecError::MissingExtractions),
        },
    }
}

/// Validates one raw directive.
pub fn directive_from_raw<I>(raw: Option<RawDirective<I>>) -> (r: Result<ExtractionDirective<I>, SpecError>)
    ensures
        match r {
            Ok(d) => directive_error(raw) is None && directive_matches(d, raw),
            Err(e) => directive_error(raw) == Some(e),
        },
{
    match raw {
        None => Err(SpecError::ExtractionNotAnObject),
        Some(d) => {
            let RawDirective { function, label, instructions } = d;
            match function {
                None => Err(SpecError::MissingFunction),
                Some(function) => match instructions {
                    None => Err(SpecError::MissingInstructions),
                    Some(instructions) => {
                        let label = match label {
                            Some(l) => l,
                            None => String::new(),
                        };
                        Ok(ExtractionDirective { function, label, instructions })
                    },
                },
            }
        },
    }
}

/// Validates a configuration entry into an [`ExtractionSpec`].
///
/// `skip_sheets` holds the names to skip that the entry gives (none where it
/// gives none) and `break_if_null` its break cell address, if any.
pub fn spec_from_raw<I>(
    sheets: Lookup<Vec<Option<String>>>,
    skip_sheets: Vec<String>,
    break_if_null: Option<String>,
    extractions: Lookup<Vec<Option<RawDirective<I>>>>,
) -> (r: Result<ExtractionSpec<I>, SpecError>)
    ensures
        match r {
            Ok(s) => {
                &&& spec_error(sheets, extractions) is None
                &&& sheets matches Lookup::Found(v) && s.sheets@.len() == v@.len() && forall|i: int|
                    0 <= i < v@.len() ==> v@[i] == Some(#[trigger] s.sheets@[i])
                &&& s.skip_sheets == skip_sheets
                &&& s.break_if_null == break_if_null
                &&& extractions matches Lookup::Found(ds) && s.extractions@.len() == ds@.len()
                    && forall|i: int|
                    0 <= i < ds@.len() ==> directive_matches(#[trigger] s.extractions@[i], ds@[i])
            },
            Err(e) => spec_error(sheets, extractions) == Some(e),
        },
{
    let raw_sheets = match sheets {
        Lookup::Missing => {
            return Err(SpecError::MissingSheets);
        },
        Lookup::WrongType => {
            return Err(SpecError::InvalidSheets);
        },
        Lookup::Found(v) => v,
    };
    let ghost sv = raw_sheets@;
    let mut names: Vec<String> = Vec::new();
    let mut rest = raw_sheets;
    let n = rest.len();
    let mut i: usize = 0;
    while i < n
        invariant
            n == sv.len(),
            0 <= i <= n,
            rest@ == sv.skip(i as int),
            sheets matches Lookup::Found(v) && v@ == sv,
            names@.len() == i,
            forall|j: int| 0 <= j < i ==> sv[j] == Some(#[trigger] names@[j]),
        decreases n - i,
    {
        let item = rest.remove(0);
        assert(sv.skip(i as int).drop_first() =~= sv.skip(i as int + 1));
        match item {
            None => {
                assert(sv[i as int] is None);
                assert(sheets_error(sheets) == Some(SpecError::InvalidSheetName));
                return Err(SpecError::InvalidSheetName);
            },
            Some(name) => {
                names.push(name);
            },
        }
        i = i + 1;
    }
    assert(sheets_error(sheets) is None) by {
        assert forall|j: int| 0 <= j < sv.len() implies !(#[trigger] sv[j] is None) by {
            assert(sv[j] == Some(names@[j]));
        }
    }
    let raw_ds = match extractions {
        Lookup::Found(ds) => ds,
        _ => {
            return Err(SpecError::MissingExtractions);
        },
    };
    let ghost dv = raw_ds@;
    let mut directives: Vec<ExtractionDirective<I>> = Vec::new();
    let mut rest = raw_ds;
    let m = rest.len();
    let mut k: usize = 0;
    while k < m
        invariant
            m == dv.len(),
            0 <= k <= m,
            rest@ == dv.skip(k as int),
            extractions matches Lookup::Found(ds) && ds@ == dv,
            sheets_error(sheets) is None,
            directives@.len() == k,
            first_directive_error(dv.take(k as int)) is None,
            forall|j: int| 0 <= j < k ==> directive_matches(#[trigger] directives@[j], dv[j]),
        decreases m - k,
    {
        let raw = rest.remove(0);
        assert(raw == dv[k as int]);
        assert(dv.take(k as int + 1).last() == dv[k as int]);
        assert(dv.skip(k as int).drop_first() =~= dv.skip(k as int + 1));
        assert(dv.take(k as int + 1).drop_last() =~= dv.take(k as int));
        let d = match directive_from_raw(raw) {
            Ok(d) => d,
            Err(e) => {
                proof {
                    lemma_first_error_prefix(dv, k as int + 1);
                }
                return Err(e);
            },
        };
        directives.push(d);
        k = k + 1;
    }
    assert(dv.take(m as int) =~= dv);
    Ok(ExtractionSpec { sheets: names, skip_sheets, break_if_null, extractions: directives })
}

proof fn lemma_first_error_prefix<I>(ds: Seq<Option<RawDirective<I>>>, k: int)
    requires
        0 <= k <= ds.len(),
        first_directive_error(ds.take(k)) is Some,
    ensures
        first_directive_error(ds) == first_directive_error(ds.take(k)),
    decreases ds.len() - k,
{
    if k < ds.len() {
        assert(ds.take(k + 1).drop_last() =~= ds.take(k));
        lemma_first_error_prefix(ds, k + 1);
    } else {
        assert(ds.take(k) =~= ds);
    }
}

} // verus!
