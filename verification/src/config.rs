//! The rule set: one rule per output file, validated before any row is read.
//!
//! A rule lists, per column, whether the column is projected into the output
//! and which values it admits; it names its output file and, optionally, the
//! columns the finished file is sorted by. Validation rejects a rule with no
//! projected column, a column that mixes a value set with a range bound, and
//! a sort column that the rule does not project.

use vstd::prelude::*;

use crate::collections::ValueSet;

verus! {

/// One column's part in a rule: whether the column appears in the output,
/// and the values the rule admits in it. A value set and a range bound are
/// mutually exclusive on one column.
pub struct ColumnFilter {
    pub column: String,
    pub included: bool,
    pub values: Option<ValueSet>,
    pub min: Option<String>,
    pub max: Option<String>,
}

/// One output file's rule: its column rules in declaration order, the output
/// file's identifier, and the columns the file is sorted by, if any.
pub struct FilterConfig {
    pub filters: Vec<ColumnFilter>,
    pub output: String,
    pub sort_columns: Option<Vec<String>>,
}

/// The column names a rule projects into its output, in declaration order.
pub open spec fn output_columns(filters: Seq<ColumnFilter>) -> Seq<Seq<char>>
    decreases filters.len(),
{
    if filters.len() == 0 {
        Seq::empty()
    } else {
        let init = output_columns(filters.drop_last());
        if filters.last().included {
            init.push(filters.last().column@)
        } else {
            init
        }
    }
}

/// Some column of the rule is projected into the output.
pub open spec fn has_output_column(filters: Seq<ColumnFilter>) -> bool {
    exists|i: int| 0 <= i < filters.len() && filters[i].included
}

/// The column rule mixes a value set with a range bound.
pub open spec fn values_range_conflict(cf: ColumnFilter) -> bool {
    cf.values is Some && (cf.min is Some || cf.max is Some)
}

/// The rule projects a column of this name.
pub open spec fn includes_column(filters: Seq<ColumnFilter>, name: Seq<char>) -> bool {
    exists|i: int| 0 <= i < filters.len() && filters[i].included && filters[i].column@ == name
}

/// A structurally valid rule: at least one projected column, no column that
/// mixes a value set with a range bound, and every sort column projected.
pub open spec fn config_wf(c: FilterConfig) -> bool {
    &&& has_output_column(c.filters@)
    &&& forall|i: int| 0 <= i < c.filters@.len() ==> !values_range_conflict(#[trigger] c.filters@[i])
    &&& (c.sort_columns matches Some(sc) ==> forall|j: int|
        0 <= j < sc@.len() ==> includes_column(c.filters@, #[trigger] sc@[j]@))
}

/// Why a rule was rejected, naming the offending output identifier.
#[derive(Debug)]
pub enum ConfigError {
    /// No column rule of the rule has `included` set.
    NoOutputColumns { output: String },
    /// Some column rule defines both a value set and a range bound.
    ValuesAndRange { output: String },
    /// A sort column is not among the rule's projected columns.
    SortColumnNotIncluded { output: String, column: String },
}

/// The error names the violation that rejects the rule: the checks run in
/// order, so each variant also records that the earlier checks passed.
pub open spec fn describes_violation(c: FilterConfig, e: ConfigError) -> bool {
    match e {
        ConfigError::NoOutputColumns { output } => {
            &&& output@ == c.output@
            &&& !has_output_column(c.filters@)
        },
        ConfigError::ValuesAndRange { output } => {
            &&& output@ == c.output@
            &&& has_output_column(c.filters@)
            &&& exists|i: int| 0 <= i < c.filters@.len() && values_range_conflict(
                #[trigger] c.filters@[i],
            )
        },
        ConfigError::SortColumnNotIncluded { output, column } => {
            &&& output@ == c.output@
            &&& has_output_column(c.filters@)
            &&& (forall|i: int| 0 <= i < c.filters@.len() ==> !values_range_conflict(
                #[trigger] c.filters@[i],
            ))
            &&& (c.sort_columns matches Some(sc) ==> exists|j: int|
                {
                    &&& 0 <= j < sc@.len()
                    &&& column@ == sc@[j]@
                    &&& !includes_column(c.filters@, sc@[j]@)
                    &&& forall|k: int| 0 <= k < j ==> includes_column(c.filters@, #[trigger] sc@[k]@)
                })
            &&& c.sort_columns is Some
        },
    }
}

/// Checks one rule's structure: `Ok` exactly for a valid rule, and otherwise
/// the error of the first check that fails, naming the rule's output.
pub fn validate_config(config: &FilterConfig) -> (r: Result<(), ConfigError>)
    ensures
        r is Ok <==> config_wf(*config),
        r matches Err(e) ==> describes_violation(*config, e),
{
    let mut any_included = false;
    let mut i: usize = 0;
    while i < config.filters.len()
        invariant
            i <= config.filters@.len(),
            any_included <==> exists|k: int| 0 <= k < i && config.filters@[k].included,
        decreases config.filters@.len() - i,
    {
        if config.filters[i].included {
            any_included = true;
        }
        i += 1;
    }
    if !any_included {
        return Err(ConfigError::NoOutputColumns { output: config.output.clone() });
    }

    let mut i: usize = 0;
    while i < config.filters.len()
        invariant
            i <= config.filters@.len(),
            forall|k: int| 0 <= k < i ==> !values_range_conflict(#[trigger] config.filters@[k]),
            has_output_column(config.filters@),
        decreases config.filters@.len() - i,
    {
        let cf = &config.filters[i];
        if cf.values.is_some() && (cf.max.is_some() || cf.min.is_some()) {
            return Err(ConfigError::ValuesAndRange { output: config.output.clone() });
        }
        i += 1;
    }

    if let Some(sort_columns) = &config.sort_columns {
        let mut j: usize = 0;
        while j < sort_columns.len()
            invariant
                j <= sort_columns@.len(),
                forall|k: int| 0 <= k < j ==> includes_column(
                    config.filters@,
                    #[trigger] sort_columns@[k]@,
                ),
                has_output_column(config.filters@),
                forall|k: int| 0 <= k < config.filters@.len() ==> !values_range_conflict(
                    #[trigger] config.filters@[k],
                ),
                config.sort_columns matches Some(sc) && sc@ == sort_columns@,
            decreases sort_columns@.len() - j,
        {
            let column = &sort_columns[j];
            let mut found = false;
            let mut i: usize = 0;
            while i < config.filters.len()
                invariant
                    i <= config.filters@.len(),
                    found <==> exists|k: int|
                        0 <= k < i && config.filters@[k].included && config.filters@[k].column@
                            == column@,
                decreases config.filters@.len() - i,
            {
                let cf = &config.filters[i];
                if cf.included && cf.column == *column {
                    found = true;
                }
                i += 1;
            }
            if !found {
                return Err(
                    ConfigError::SortColumnNotIncluded {
                        output: config.output.clone(),
                        column: column.clone(),
                    },
                );
            }
            j += 1;
        }
    }
    Ok(())
}

/// Validates a loaded rule set and puts it in processing order: `Ok` exactly
/// when every rule is valid, and then the rules in reverse of their declared
/// order, as the load stage hands them to the pipeline. A failure reports
/// the first invalid rule's violation.
pub fn prepare_configs(configs: Vec<FilterConfig>) -> (r: Result<Vec<FilterConfig>, ConfigError>)
    ensures
        r is Ok <==> (forall|i: int| 0 <= i < configs@.len() ==> config_wf(#[trigger] configs@[i])),
        r matches Ok(v) ==> v@ == configs@.reverse(),
        r matches Err(e) ==> exists|i: int|
            {
                &&& 0 <= i < configs@.len()
                &&& describes_violation(#[trigger] configs@[i], e)
                &&& forall|k: int| 0 <= k < i ==> config_wf(#[trigger] configs@[k])
            },
{
    let mut i: usize = 0;
    while i < configs.len()
        invariant
            i <= configs@.len(),
            forall|k: int| 0 <= k < i ==> config_wf(#[trigger] configs@[k]),
        decreases configs@.len() - i,
    {
        if let Err(e) = validate_config(&configs[i]) {
            proof {
                assert(describes_violation(configs@[i as int], e));
            }
            return Err(e);
        }
        i += 1;
    }

    let mut rest = configs;
    let mut out: Vec<FilterConfig> = Vec::new();
    let ghost all = rest@;
    while rest.len() > 0
        invariant
            rest@.len() <= all.len(),
            out@ == all.skip(rest@.len() as int).reverse(),
            rest@ == all.take(rest@.len() as int),
        decreases rest@.len(),
    {
        let ghost n = rest@.len() as int;
        let fc = rest.pop().unwrap();
        out.push(fc);
        proof {
            assert(all.skip(n - 1).reverse() =~= all.skip(n).reverse().push(all[n - 1]));
            assert(rest@ =~= all.take(n - 1));
        }
    }
    proof {
        assert(out@ =~= all.reverse());
    }
    Ok(out)
}

} // verus!
