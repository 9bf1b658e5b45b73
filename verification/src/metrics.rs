//! Counters of the insertion path.

use vstd::prelude::*;

verus! {

/// Counts what happened to the shreds handed in for insertion, and how long it took. The
/// counters stay at their highest value once they reach it.
#[derive(Clone, Copy, Debug)]
pub struct BlockstoreInsertionMetrics {
    pub num_shreds: usize,
    pub insert_lock_elapsed: u64,
    pub insert_shreds_elapsed: u64,
    pub shred_recovery_elapsed: u64,
    pub chaining_elapsed: u64,
    pub commit_working_sets_elapsed: u64,
    pub write_batch_elapsed: u64,
    pub total_elapsed: u64,
    pub num_inserted: u64,
    pub num_repair: u64,
    pub num_recovered: usize,
    pub num_recovered_blockstore_error: usize,
    pub num_recovered_inserted: usize,
    pub num_recovered_failed_sig: usize,
    pub num_recovered_failed_invalid: usize,
    pub num_recovered_exists: usize,
    pub index_meta_time: u64,
    pub num_data_shreds_exists: usize,
    pub num_data_shreds_invalid: usize,
    pub num_data_shreds_blockstore_error: usize,
    pub num_coding_shreds_exists: usize,
    pub num_coding_shreds_invalid: usize,
    pub num_coding_shreds_invalid_erasure_config: usize,
    pub num_coding_shreds_inserted: usize,
}

/// `n` more, up to the highest value.
pub open spec fn more(counter: usize, n: usize) -> usize {
    if counter + n <= usize::MAX {
        (counter + n) as usize
    } else {
        usize::MAX
    }
}

/// One more, up to the highest value.
pub open spec fn more_u64(counter: u64) -> u64 {
    if counter < u64::MAX {
        (counter + 1) as u64
    } else {
        counter
    }
}

pub fn bump(counter: usize, n: usize) -> (result: usize)
    ensures
        result == more(counter, n),
{
    if counter <= usize::MAX - n {
        counter + n
    } else {
        usize::MAX
    }
}

pub fn bump_u64(counter: u64) -> (result: u64)
    ensures
        result == more_u64(counter),
{
    if counter < u64::MAX {
        counter + 1
    } else {
        counter
    }
}

/// One field of a data point.
pub struct MetricField {
    pub name: &'static str,
    pub value: i64,
}

impl View for MetricField {
    type V = (Seq<char>, i64);

    open spec fn view(&self) -> (Seq<char>, i64) {
        (self.name@, self.value)
    }
}

/// A named list of fields to be submitted.
pub struct DataPoint {
    pub name: &'static str,
    pub fields: Vec<MetricField>,
}

/// The models of the fields in a vector.
pub open spec fn field_views(fields: Seq<MetricField>) -> Seq<(Seq<char>, i64)> {
    Seq::new(fields.len(), |i: int| fields[i]@)
}

impl Default for BlockstoreInsertionMetrics {
    fn default() -> (result: Self)
        ensures
            result == BlockstoreInsertionMetrics::zero(),
    {
        BlockstoreInsertionMetrics {
            num_shreds: 0,
            insert_lock_elapsed: 0,
            insert_shreds_elapsed: 0,
            shred_recovery_elapsed: 0,
            chaining_elapsed: 0,
            commit_working_sets_elapsed: 0,
            write_batch_elapsed: 0,
            total_elapsed: 0,
            num_inserted: 0,
            num_repair: 0,
            num_recovered: 0,
            num_recovered_blockstore_error: 0,
            num_recovered_inserted: 0,
            num_recovered_failed_sig: 0,
            num_recovered_failed_invalid: 0,
            num_recovered_exists: 0,
            index_meta_time: 0,
            num_data_shreds_exists: 0,
            num_data_shreds_invalid: 0,
            num_data_shreds_blockstore_error: 0,
            num_coding_shreds_exists: 0,
            num_coding_shreds_invalid: 0,
            num_coding_shreds_invalid_erasure_config: 0,
            num_coding_shreds_inserted: 0,
        }
    }
}

/// A counter as it is reported: its low 64 bits, read as a signed number.
pub open spec fn reported(counter: int) -> i64 {
    counter as i64
}

fn report_usize(counter: usize) -> (result: i64)
    ensures
        result == reported(counter as int),
{
    #[verifier::truncate]
    (counter as i64)
}

fn report_u64(counter: u64) -> (result: i64)
    ensures
        result == reported(counter as int),
{
    #[verifier::truncate]
    (counter as i64)
}

impl BlockstoreInsertionMetrics {
    /// Every counter at zero.
    pub open spec fn zero() -> Self {
        BlockstoreInsertionMetrics {
            num_shreds: 0,
            insert_lock_elapsed: 0,
            insert_shreds_elapsed: 0,
            shred_recovery_elapsed: 0,
            chaining_elapsed: 0,
            commit_working_sets_elapsed: 0,
            write_batch_elapsed: 0,
            total_elapsed: 0,
            num_inserted: 0,
            num_repair: 0,
            num_recovered: 0,
            num_recovered_blockstore_error: 0,
            num_recovered_inserted: 0,
            num_recovered_failed_sig: 0,
            num_recovered_failed_invalid: 0,
            num_recovered_exists: 0,
            index_meta_time: 0,
            num_data_shreds_exists: 0,
            num_data_shreds_invalid: 0,
            num_data_shreds_blockstore_error: 0,
            num_coding_shreds_exists: 0,
            num_coding_shreds_invalid: 0,
            num_coding_shreds_invalid_erasure_config: 0,
            num_coding_shreds_inserted: 0,
        }
    }

    /// The fields that are reported, by name, in order.
    pub open spec fn fields(self) -> Seq<(Seq<char>, i64)> {
        seq![
            ("num_shreds"@, reported(self.num_shreds as int)),
            ("total_elapsed"@, reported(self.total_elapsed as int)),
            ("insert_lock_elapsed"@, reported(self.insert_lock_elapsed as int)),
            ("insert_shreds_elapsed"@, reported(self.insert_shreds_elapsed as int)),
            ("shred_recovery_elapsed"@, reported(self.shred_recovery_elapsed as int)),
            ("chaining_elapsed"@, reported(self.chaining_elapsed as int)),
            ("commit_working_sets_elapsed"@, reported(self.commit_working_sets_elapsed as int)),
            ("write_batch_elapsed"@, reported(self.write_batch_elapsed as int)),
            ("num_inserted"@, reported(self.num_inserted as int)),
            ("num_repair"@, reported(self.num_repair as int)),
            ("num_recovered"@, reported(self.num_recovered as int)),
            ("num_recovered_inserted"@, reported(self.num_recovered_inserted as int)),
            ("num_recovered_failed_sig"@, reported(self.num_recovered_failed_sig as int)),
            ("num_recovered_failed_invalid"@, reported(self.num_recovered_failed_invalid as int)),
            ("num_recovered_exists"@, reported(self.num_recovered_exists as int)),
            (
                "num_recovered_blockstore_error"@,
                reported(self.num_recovered_blockstore_error as int),
            ),
            ("num_data_shreds_exists"@, reported(self.num_data_shreds_exists as int)),
            ("num_data_shreds_invalid"@, reported(self.num_data_shreds_invalid as int)),
            (
                "num_data_shreds_blockstore_error"@,
                reported(self.num_data_shreds_blockstore_error as int),
            ),
            ("num_coding_shreds_exists"@, reported(self.num_coding_shreds_exists as int)),
            ("num_coding_shreds_invalid"@, reported(self.num_coding_shreds_invalid as int)),
            (
                "num_coding_shreds_invalid_erasure_config"@,
                reported(self.num_coding_shreds_invalid_erasure_config as int),
            ),
            ("num_coding_shreds_inserted"@, reported(self.num_coding_shreds_inserted as int)),
        ]
    }

    /// The data point to submit under `metric_name`.
    pub fn report_metrics(&self, metric_name: &'static str) -> (result: DataPoint)
        ensures
            result.name@ == metric_name@,
            field_views(result.fields@) == self.fields(),
    {
        let fields: Vec<MetricField> = vec![
            MetricField { name: "num_shreds", value: report_usize(self.num_shreds) },
            MetricField { name: "total_elapsed", value: report_u64(self.total_elapsed) },
            MetricField {
                name: "insert_lock_elapsed",
                value: report_u64(self.insert_lock_elapsed),
            },
            MetricField {
                name: "insert_shreds_elapsed",
                value: report_u64(self.insert_shreds_elapsed),
            },
            MetricField {
                name: "shred_recovery_elapsed",
                value: report_u64(self.shred_recovery_elapsed),
            },
            MetricField { name: "chaining_elapsed", value: report_u64(self.chaining_elapsed) },
            MetricField {
                name: "commit_working_sets_elapsed",
                value: report_u64(self.commit_working_sets_elapsed),
            },
            MetricField {
                name: "write_batch_elapsed",
                value: report_u64(self.write_batch_elapsed),
            },
            MetricField { name: "num_inserted", value: report_u64(self.num_inserted) },
            MetricField { name: "num_repair", value: report_u64(self.num_repair) },
            MetricField { name: "num_recovered", value: report_usize(self.num_recovered) },
            MetricField {
                name: "num_recovered_inserted",
                value: report_usize(self.num_recovered_inserted),
            },
            MetricField {
                name: "num_recovered_failed_sig",
                value: report_usize(self.num_recovered_failed_sig),
            },
            MetricField {
                name: "num_recovered_failed_invalid",
                value: report_usize(self.num_recovered_failed_invalid),
            },
            MetricField {
                name: "num_recovered_exists",
                value: report_usize(self.num_recovered_exists),
            },
            MetricField {
                name: "num_recovered_blockstore_error",
                value: report_usize(self.num_recovered_blockstore_error),
            },
            MetricField {
                name: "num_data_shreds_exists",
                value: report_usize(self.num_data_shreds_exists),
            },
            MetricField {
                name: "num_data_shreds_invalid",
                value: report_usize(self.num_data_shreds_invalid),
            },
            MetricField {
                name: "num_data_shreds_blockstore_error",
                value: report_usize(self.num_data_shreds_blockstore_error),
            },
            MetricField {
                name: "num_coding_shreds_exists",
                value: report_usize(self.num_coding_shreds_exists),
            },
            MetricField {
                name: "num_coding_shreds_invalid",
                value: report_usize(self.num_coding_shreds_invalid),
            },
            MetricField {
                name: "num_coding_shreds_invalid_erasure_config",
                value: report_usize(self.num_coding_shreds_invalid_erasure_config),
            },
            MetricField {
                name: "num_coding_shreds_inserted",
                value: report_usize(self.num_coding_shreds_inserted),
            },
        ];
        assert(field_views(fields@) =~= self.fields());
        DataPoint { name: metric_name, fields }
    }
}

} // verus!
