//! The filter engine: decides, per record and per rule, whether the record
//! is admitted, and projects an admitted record into the rule's output
//! column order.
//!
//! A column rule whose column the current input file does not have is
//! skipped silently when filtering — deliberate permissiveness — while a
//! projected column that is absent is an error: an output row cannot omit a
//! declared output column.

use vstd::prelude::*;

use crate::collections::{set_contains, value_set};
use crate::config::{output_columns, ColumnFilter, FilterConfig};
use crate::headers::HeaderIndex;
use crate::text::{lex_le, str_le};

verus! {

/// One column rule's verdict on a record: if the input file has the column,
/// the field there must be in the value set (when one is given) and inside
/// the bounds (when given); a column the file does not have imposes nothing.
pub open spec fn filter_admits(
    cf: ColumnFilter,
    record: Seq<Seq<char>>,
    headers: Map<Seq<char>, usize>,
) -> bool {
    headers.dom().contains(cf.column@) ==> {
        let field = record[headers[cf.column@] as int];
        &&& (cf.values matches Some(vs) ==> value_set(vs).contains(field))
        &&& (cf.min matches Some(lo) ==> lex_le(lo@, field))
        &&& (cf.max matches Some(hi) ==> lex_le(field, hi@))
    }
}

/// A record is admitted by a rule when every column rule of the rule admits
/// it; a rule with no column rules admits every record.
pub open spec fn record_matches(
    record: Seq<Seq<char>>,
    c: FilterConfig,
    headers: Map<Seq<char>, usize>,
) -> bool {
    forall|i: int|
        0 <= i < c.filters@.len() ==> filter_admits(#[trigger] c.filters@[i], record, headers)
}

/// Every column the rule projects is a column of the input file.
pub open spec fn projectable(c: FilterConfig, headers: Map<Seq<char>, usize>) -> bool {
    forall|j: int|
        0 <= j < output_columns(c.filters@).len() ==> headers.dom().contains(
            #[trigger] output_columns(c.filters@)[j],
        )
}

/// The record's fields at the rule's projected columns, in the rule's
/// declaration order.
pub open spec fn projection(
    record: Seq<Seq<char>>,
    c: FilterConfig,
    headers: Map<Seq<char>, usize>,
) -> Seq<Seq<char>> {
    output_columns(c.filters@).map_values(|name: Seq<char>| record[headers[name] as int])
}

/// A projected column the input file does not have, the first such in the
/// rule's declaration order.
pub open spec fn names_first_missing_column(
    c: FilterConfig,
    headers: Map<Seq<char>, usize>,
    name: Seq<char>,
) -> bool {
    exists|j: int|
        {
            &&& 0 <= j < output_columns(c.filters@).len()
            &&& name == output_columns(c.filters@)[j]
            &&& !headers.dom().contains(output_columns(c.filters@)[j])
            &&& forall|k: int| 0 <= k < j ==> headers.dom().contains(
                #[trigger] output_columns(c.filters@)[k],
            )
        }
}

/// A rule projects a column the current input file does not have: an output
/// row cannot omit a declared output column.
#[derive(Debug)]
pub struct SchemaError {
    pub column: String,
}

/// Whether a record is admitted by one rule: every column rule present in
/// the input file must pass its value-set and range checks, in that order;
/// column rules naming absent columns are skipped.
pub fn record_matches_filter_config(
    record: &Vec<String>,
    config: &FilterConfig,
    headers: &HeaderIndex,
) -> (r: bool)
    requires
        headers.wf(),
        headers.width_spec() <= record@.len(),
    ensures
        r == record_matches(record.deep_view(), *config, headers.entries()),
{
    let ghost rdv = record.deep_view();
    let mut i: usize = 0;
    while i < config.filters.len()
        invariant
            headers.wf(),
            headers.width_spec() <= record@.len(),
            rdv == record.deep_view(),
            i <= config.filters@.len(),
            forall|k: int| 0 <= k < i ==> filter_admits(
                #[trigger] config.filters@[k],
                rdv,
                headers.entries(),
            ),
        decreases config.filters@.len() - i,
    {
        let cf = &config.filters[i];
        if let Some(idx) = headers.get(&cf.column) {
            let field = &record[idx];
            proof {
                assert(rdv[idx as int] == record@[idx as int]@);
            }
            if let Some(vs) = &cf.values {
                if !set_contains(vs, field) {
                    proof {
                        assert(!filter_admits(config.filters@[i as int], rdv, headers.entries()));
                    }
                    return false;
                }
            }
            if let Some(lo) = &cf.min {
                if !str_le(lo.as_str(), field.as_str()) {
                    proof {
                        assert(!filter_admits(config.filters@[i as int], rdv, headers.entries()));
                    }
                    return false;
                }
            }
            if let Some(hi) = &cf.max {
                if !str_le(field.as_str(), hi.as_str()) {
                    proof {
                        assert(!filter_admits(config.filters@[i as int], rdv, headers.entries()));
                    }
                    return false;
                }
            }
        }
        i += 1;
    }
    true
}

/// The column names a rule projects, in declaration order: the rule's
/// output file's header row.
pub fn get_output_columns(config: &FilterConfig) -> (r: Vec<String>)
    ensures
        r.deep_view() == output_columns(config.filters@),
{
    let mut out: Vec<String> = Vec::new();
    let mut i: usize = 0;
    while i < config.filters.len()
        invariant
            i <= config.filters@.len(),
            out.deep_view() == output_columns(config.filters@.take(i as int)),
        decreases config.filters@.len() - i,
    {
        let ghost prefix_dv = out.deep_view();
        let cf = &config.filters[i];
        if cf.included {
            out.push(cf.column.clone());
            proof {
                assert(out.deep_view() =~= prefix_dv.push(config.filters@[i as int].column@));
            }
        }
        proof {
            let next = config.filters@.take(i + 1int);
            assert(next.drop_last() =~= config.filters@.take(i as int));
            assert(next.last() == config.filters@[i as int]);
        }
        i += 1;
    }
    proof {
        assert(config.filters@.take(config.filters@.len() as int) =~= config.filters@);
    }
    out
}

/// Projects a record into a rule's output row: the fields of the projected
/// columns, in the rule's declaration order. Fails, naming the first
/// offending column, when the rule projects a column the input file does
/// not have.
pub fn build_output_record(
    record: &Vec<String>,
    config: &FilterConfig,
    headers: &HeaderIndex,
) -> (r: Result<Vec<String>, SchemaError>)
    requires
        headers.wf(),
        headers.width_spec() <= record@.len(),
    ensures
        r is Ok <==> projectable(*config, headers.entries()),
        r matches Ok(out) ==> out.deep_view() == projection(
            record.deep_view(),
            *config,
            headers.entries(),
        ),
        r matches Err(e) ==> names_first_missing_column(*config, headers.entries(), e.column@),
{
    let ghost rdv = record.deep_view();
    let ghost names_spec = output_columns(config.filters@);
    let names = get_output_columns(config);
    let mut out: Vec<String> = Vec::new();
    let mut j: usize = 0;
    while j < names.len()
        invariant
            headers.wf(),
            headers.width_spec() <= record@.len(),
            rdv == record.deep_view(),
            names.deep_view() == names_spec,
            names_spec == output_columns(config.filters@),
            j <= names@.len(),
            out@.len() == j,
            forall|k: int| 0 <= k < j ==> headers.entries().dom().contains(
                #[trigger] names_spec[k],
            ),
            forall|k: int| 0 <= k < j ==> out.deep_view()[k] == rdv[headers.entries()[names_spec[k]] as int],
        decreases names@.len() - j,
    {
        let name = &names[j];
        proof {
            assert(name@ == names_spec[j as int]);
        }
        match headers.get(name) {
            Some(idx) => {
                let ghost prefix_dv = out.deep_view();
                out.push(record[idx].clone());
                proof {
                    assert(out.deep_view() =~= prefix_dv.push(record@[idx as int]@));
                    assert(rdv[idx as int] == record@[idx as int]@);
                }
            },
            None => {
                return Err(SchemaError { column: name.clone() });
            },
        }
        j += 1;
    }
    proof {
        assert(out.deep_view() =~= projection(rdv, *config, headers.entries()));
    }
    Ok(out)
}

/// The rules that admit a record, by their position in the rule sequence,
/// in order.
pub open spec fn matching_indices(
    record: Seq<Seq<char>>,
    configs: Seq<FilterConfig>,
    headers: Map<Seq<char>, usize>,
) -> Seq<int>
    decreases configs.len(),
{
    if configs.len() == 0 {
        Seq::empty()
    } else {
        let init = matching_indices(record, configs.drop_last(), headers);
        if record_matches(record, configs.last(), headers) {
            init.push(configs.len() - 1)
        } else {
            init
        }
    }
}

/// Evaluates one record against every rule: for each rule that admits the
/// record, in rule order, the rule's position and the record's projection
/// into that rule's output columns. Fails on the first admitted rule that
/// projects a column the input file does not have.
pub fn route_record(
    record: &Vec<String>,
    configs: &Vec<FilterConfig>,
    headers: &HeaderIndex,
) -> (r: Result<Vec<(usize, Vec<String>)>, SchemaError>)
    requires
        headers.wf(),
        headers.width_spec() <= record@.len(),
    ensures
        r is Ok <==> (forall|i: int|
            0 <= i < configs@.len() && record_matches(
                record.deep_view(),
                #[trigger] configs@[i],
                headers.entries(),
            ) ==> projectable(configs@[i], headers.entries())),
        r matches Ok(out) ==> {
            &&& out@.len() == matching_indices(
                record.deep_view(),
                configs@,
                headers.entries(),
            ).len()
            &&& (forall|k: int| 0 <= k < out@.len() ==> (#[trigger] out@[k]).0 as int
                == matching_indices(record.deep_view(), configs@, headers.entries())[k])
            &&& (forall|k: int| 0 <= k < out@.len() ==> (#[trigger] out@[k]).0 < configs@.len())
            &&& (forall|k: int| 0 <= k < out@.len() ==> record_matches(
                record.deep_view(),
                configs@[(#[trigger] out@[k]).0 as int],
                headers.entries(),
            ))
            &&& (forall|k: int| 0 <= k < out@.len() ==> (#[trigger] out@[k]).1.deep_view()
                == projection(
                    record.deep_view(),
                    configs@[out@[k].0 as int],
                    headers.entries(),
                ))
        },
        r matches Err(e) ==> exists|i: int|
            {
                &&& 0 <= i < configs@.len()
                &&& record_matches(record.deep_view(), #[trigger] configs@[i], headers.entries())
                &&& !projectable(configs@[i], headers.entries())
                &&& names_first_missing_column(configs@[i], headers.entries(), e.column@)
                &&& forall|k: int|
                    0 <= k < i && record_matches(
                        record.deep_view(),
                        #[trigger] configs@[k],
                        headers.entries(),
                    ) ==> projectable(configs@[k], headers.entries())
            },
{
    let ghost rdv = record.deep_view();
    let ghost hm = headers.entries();
    let mut out: Vec<(usize, Vec<String>)> = Vec::new();
    let mut i: usize = 0;
    while i < configs.len()
        invariant
            headers.wf(),
            headers.width_spec() <= record@.len(),
            rdv == record.deep_view(),
            hm == headers.entries(),
            i <= configs@.len(),
            out@.len() == matching_indices(rdv, configs@.take(i as int), hm).len(),
            forall|k: int| 0 <= k < out@.len() ==> (#[trigger] out@[k]).0 as int
                == matching_indices(rdv, configs@.take(i as int), hm)[k],
            forall|k: int| 0 <= k < out@.len() ==> (#[trigger] out@[k]).0 < i,
            forall|k: int| 0 <= k < out@.len() ==> record_matches(
                rdv,
                configs@[(#[trigger] out@[k]).0 as int],
                hm,
            ),
            forall|k: int| 0 <= k < out@.len() ==> (#[trigger] out@[k]).1.deep_view() == projection(
                rdv,
                configs@[out@[k].0 as int],
                hm,
            ),
            forall|k: int|
                0 <= k < i && record_matches(rdv, #[trigger] configs@[k], hm) ==> projectable(
                    configs@[k],
                    hm,
                ),
        decreases configs@.len() - i,
    {
        let config = &configs[i];
        if record_matches_filter_config(record, config, headers) {
            match build_output_record(record, config, headers) {
                Ok(row) => {
                    out.push((i, row));
                },
                Err(e) => {
                    return Err(e);
                },
            }
        }
        proof {
            let next = configs@.take(i + 1int);
            assert(next.drop_last() =~= configs@.take(i as int));
            assert(next.last() == configs@[i as int]);
        }
        i += 1;
    }
    proof {
        assert(configs@.take(configs@.len() as int) =~= configs@);
    }
    Ok(out)
}

/// A column rule with no value set and no bounds restricts nothing: every
/// record passes its check, whatever the input file's columns.
pub proof fn lemma_unconstrained_filter_admits(
    cf: ColumnFilter,
    record: Seq<Seq<char>>,
    headers: Map<Seq<char>, usize>,
)
    requires
        cf.values is None,
        cf.min is None,
        cf.max is None,
    ensures
        filter_admits(cf, record, headers),
{
}

/// A column rule naming a column the input file does not have is skipped:
/// every record passes its check.
pub proof fn lemma_absent_column_admits(
    cf: ColumnFilter,
    record: Seq<Seq<char>>,
    headers: Map<Seq<char>, usize>,
)
    requires
        !headers.dom().contains(cf.column@),
    ensures
        filter_admits(cf, record, headers),
{
}

/// The verdict on a record reads only the fields at the rule's named
/// columns: two records that agree on every named column present in the
/// input file get the same verdict, so a column no column rule restricts
/// never decides whether a record passes.
pub proof fn lemma_matches_reads_only_named_columns(
    r1: Seq<Seq<char>>,
    r2: Seq<Seq<char>>,
    c: FilterConfig,
    headers: Map<Seq<char>, usize>,
)
    requires
        forall|i: int|
            0 <= i < c.filters@.len() && headers.dom().contains(
                (#[trigger] c.filters@[i]).column@,
            ) ==> r1[headers[c.filters@[i].column@] as int] == r2[headers[c.filters@[i].column@] as int],
    ensures
        record_matches(r1, c, headers) == record_matches(r2, c, headers),
{
    if record_matches(r1, c, headers) {
        assert forall|i: int| 0 <= i < c.filters@.len() implies filter_admits(
            #[trigger] c.filters@[i],
            r2,
            headers,
        ) by {
            assert(filter_admits(c.filters@[i], r1, headers));
        }
    }
    if record_matches(r2, c, headers) {
        assert forall|i: int| 0 <= i < c.filters@.len() implies filter_admits(
            #[trigger] c.filters@[i],
            r1,
            headers,
        ) by {
            assert(filter_admits(c.filters@[i], r2, headers));
        }
    }
}

/// A rule with no column rules admits every record.
pub proof fn lemma_empty_rule_matches(
    record: Seq<Seq<char>>,
    c: FilterConfig,
    headers: Map<Seq<char>, usize>,
)
    requires
        c.filters@.len() == 0,
    ensures
        record_matches(record, c, headers),
{
}

/// A record is admitted by a rule with a value set on a present column only
/// if the record's field there is an element of the set — membership is
/// exact, case-sensitive string equality.
pub proof fn lemma_value_set_restricts(
    record: Seq<Seq<char>>,
    c: FilterConfig,
    headers: Map<Seq<char>, usize>,
    i: int,
)
    requires
        record_matches(record, c, headers),
        0 <= i < c.filters@.len(),
        c.filters@[i].values is Some,
        headers.dom().contains(c.filters@[i].column@),
    ensures
        value_set(c.filters@[i].values->0).contains(record[headers[c.filters@[i].column@] as int]),
{
    assert(filter_admits(c.filters@[i], record, headers));
}

/// A record admitted by a rule with bounds on a present column carries a
/// field there with min ≤ field ≤ max in lexicographic string order.
pub proof fn lemma_range_restricts(
    record: Seq<Seq<char>>,
    c: FilterConfig,
    headers: Map<Seq<char>, usize>,
    i: int,
)
    requires
        record_matches(record, c, headers),
        0 <= i < c.filters@.len(),
        headers.dom().contains(c.filters@[i].column@),
    ensures
        c.filters@[i].min matches Some(lo) ==> lex_le(
            lo@,
            record[headers[c.filters@[i].column@] as int],
        ),
        c.filters@[i].max matches Some(hi) ==> lex_le(
            record[headers[c.filters@[i].column@] as int],
            hi@,
        ),
{
    assert(filter_admits(c.filters@[i], record, headers));
}

/// A valid rule never combines a value set with a range bound on one column:
/// rule validation rejects the combination before any record is processed.
pub proof fn lemma_valid_config_no_conflict(c: FilterConfig)
    requires
        crate::config::config_wf(c),
    ensures
        forall|i: int| 0 <= i < c.filters@.len() ==> !crate::config::values_range_conflict(
            #[trigger] c.filters@[i],
        ),
{
}

/// A projected row follows the rule's declared column order: field `j` of
/// the output is the record's field at the position of the rule's `j`-th
/// projected column.
pub proof fn lemma_projection_in_declared_order(
    record: Seq<Seq<char>>,
    c: FilterConfig,
    headers: Map<Seq<char>, usize>,
)
    ensures
        projection(record, c, headers).len() == output_columns(c.filters@).len(),
        forall|j: int| 0 <= j < output_columns(c.filters@).len() ==> projection(record, c, headers)[j]
            == record[headers[#[trigger] output_columns(c.filters@)[j]] as int],
{
}

/// The projection does not depend on the input file's column order: two
/// input files whose records agree, column name by column name, on every
/// column the rule projects yield the same output row.
pub proof fn lemma_projection_independent_of_input_order(
    r1: Seq<Seq<char>>,
    h1: Map<Seq<char>, usize>,
    r2: Seq<Seq<char>>,
    h2: Map<Seq<char>, usize>,
    c: FilterConfig,
)
    requires
        forall|j: int| 0 <= j < output_columns(c.filters@).len()
            ==> r1[h1[#[trigger] output_columns(c.filters@)[j]] as int]
                == r2[h2[output_columns(c.filters@)[j]] as int],
    ensures
        projection(r1, c, h1) == projection(r2, c, h2),
{
    assert(projection(r1, c, h1) =~= projection(r2, c, h2));
}

} // verus!
