use vstd::prelude::*;

use crate::engine::strategy::StrategyConfig;

verus! {

/// The rules: for each table, by name, how its columns are rewritten.
/// Tables and columns not named here are passed through.
pub struct Config {
    pub tables: Vec<(Vec<u8>, TableConfig)>,
}

pub struct TableConfig {
    pub columns: Vec<ColumnConfig>,
}

pub struct ColumnConfig {
    pub name: Vec<u8>,
    pub strategy: StrategyConfig,
}

/// No two tables in `tables` have the same name.
pub open spec fn names_distinct(tables: Seq<(Vec<u8>, TableConfig)>) -> bool {
    forall|i: int, j: int|
        0 <= i < j < tables.len() ==> (#[trigger] tables[i]).0@ != (#[trigger] tables[j]).0@
}

/// The first table in `tables` called `name`.
pub open spec fn find_table(tables: Seq<(Vec<u8>, TableConfig)>, name: Seq<u8>) -> Option<
    TableConfig,
>
    decreases tables.len(),
{
    if tables.len() == 0 {
        None
    } else if tables[0].0@ == name {
        Some(tables[0].1)
    } else {
        find_table(tables.drop_first(), name)
    }
}

/// The strategy of the first column in `columns` called `name`.
pub open spec fn find_column(columns: Seq<ColumnConfig>, name: Seq<u8>) -> Option<StrategyConfig>
    decreases columns.len(),
{
    if columns.len() == 0 {
        None
    } else if columns[0].name@ == name {
        Some(columns[0].strategy)
    } else {
        find_column(columns.drop_first(), name)
    }
}

/// The strategy that the rules give to `column` of `table`, if any.
pub open spec fn strategy_for(config: Config, table: Seq<u8>, column: Seq<u8>) -> Option<
    StrategyConfig,
> {
    match find_table(config.tables@, table) {
        Some(t) => find_column(t.columns@, column),
        None => None,
    }
}

impl Config {
    /// Well-formed rules name each table once, as the keys of a map do.
    pub open spec fn wf(&self) -> bool {
        names_distinct(self.tables@)
    }

    /// The rules for the table called `name`, if any.
    pub fn table(&self, name: &[u8]) -> (t: Option<&TableConfig>)
        ensures
            match t {
                Some(t) => find_table(self.tables@, name@) == Some(*t),
                None => find_table(self.tables@, name@) is None,
            },
    {
        let mut i: usize = 0;
        assert(self.tables@.skip(0) =~= self.tables@);
        while i < self.tables.len()
            invariant
                i <= self.tables@.len(),
                find_table(self.tables@, name@) == find_table(self.tables@.skip(i as int), name@),
            decreases self.tables@.len() - i,
        {
            assert(self.tables@.skip(i as int).drop_first() =~= self.tables@.skip(i + 1));
            if crate::text::bytes_eq(self.tables[i].0.as_slice(), name) {
                return Some(&self.tables[i].1);
            }
            i += 1;
        }
        None
    }
}

impl TableConfig {
    /// The strategy of the column called `name`, if any.
    pub fn column_strategy(&self, name: &[u8]) -> (s: Option<&StrategyConfig>)
        ensures
            match s {
                Some(s) => find_column(self.columns@, name@) == Some(*s),
                None => find_column(self.columns@, name@) is None,
            },
    {
        let mut i: usize = 0;
        assert(self.columns@.skip(0) =~= self.columns@);
        while i < self.columns.len()
            invariant
                i <= self.columns@.len(),
                find_column(self.columns@, name@) == find_column(
                    self.columns@.skip(i as int),
                    name@,
                ),
            decreases self.columns@.len() - i,
        {
            assert(self.columns@.skip(i as int).drop_first() =~= self.columns@.skip(i + 1));
            if crate::text::bytes_eq(self.columns[i].name.as_slice(), name) {
                return Some(&self.columns[i].strategy);
            }
            i += 1;
        }
        None
    }
}

} // verus!
